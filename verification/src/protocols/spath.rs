//! The scalar algorithm behind the shortest-path engine.

use vstd::prelude::*;
use crate::protocols::route_compute::strategy::ScalarRouteAlgorithm;
use crate::text::{chars_are, keyword, keyword_of};

verus! {

/// The scalar algorithm of the shortest-path engine.
#[derive(Debug, Clone, Copy, PartialEq, Eq, Structural)]
pub enum SPathAlgorithm {
    Dijkstra,
    Ecmp,
    BellmanFord,
    YenKShortest,
}

impl SPathAlgorithm {
    /// The algorithm named by `raw`, matched on its trimmed, lower-cased
    /// form; an unknown name means Dijkstra.
    pub open spec fn spec_from_str(raw: Seq<char>) -> SPathAlgorithm {
        let k = keyword(raw);
        if k == "ecmp"@ {
            SPathAlgorithm::Ecmp
        } else if k == "bellman_ford"@ || k == "bellman-ford"@ || k == "bf"@ {
            SPathAlgorithm::BellmanFord
        } else if k == "yen"@ || k == "yen_ksp"@ || k == "yen-ksp"@ || k == "ksp"@ || k
            == "yen_k_shortest"@ {
            SPathAlgorithm::YenKShortest
        } else {
            SPathAlgorithm::Dijkstra
        }
    }

    /// The strategy algorithm that this algorithm stands for; Yen computes
    /// at least one path.
    pub open spec fn spec_scalar_strategy(self, k_paths: usize) -> ScalarRouteAlgorithm {
        match self {
            SPathAlgorithm::Dijkstra => ScalarRouteAlgorithm::Dijkstra,
            SPathAlgorithm::Ecmp => ScalarRouteAlgorithm::Ecmp,
            SPathAlgorithm::BellmanFord => ScalarRouteAlgorithm::BellmanFord,
            SPathAlgorithm::YenKShortest => ScalarRouteAlgorithm::YenKShortest {
                k_paths: if k_paths >= 1 {
                    k_paths
                } else {
                    1
                },
            },
        }
    }

    /// Parses the name of an algorithm; surrounding whitespace and ASCII
    /// case are ignored.
    pub fn from_str(raw: &str) -> (r: Self)
        ensures
            r == Self::spec_from_str(raw@),
    {
        let k = keyword_of(raw);
        if chars_are(&k, "ecmp") {
            SPathAlgorithm::Ecmp
        } else if chars_are(&k, "bellman_ford") || chars_are(&k, "bellman-ford") || chars_are(
            &k,
            "bf",
        ) {
            SPathAlgorithm::BellmanFord
        } else if chars_are(&k, "yen") || chars_are(&k, "yen_ksp") || chars_are(&k, "yen-ksp")
            || chars_are(&k, "ksp") || chars_are(&k, "yen_k_shortest") {
            SPathAlgorithm::YenKShortest
        } else {
            SPathAlgorithm::Dijkstra
        }
    }

    /// The canonical name of the algorithm.
    pub fn as_str(self) -> (r: &'static str)
        ensures
            r@ == match self {
                SPathAlgorithm::Dijkstra => "dijkstra"@,
                SPathAlgorithm::Ecmp => "ecmp"@,
                SPathAlgorithm::BellmanFord => "bellman_ford"@,
                SPathAlgorithm::YenKShortest => "yen_ksp"@,
            },
    {
        match self {
            SPathAlgorithm::Dijkstra => "dijkstra",
            SPathAlgorithm::Ecmp => "ecmp",
            SPathAlgorithm::BellmanFord => "bellman_ford",
            SPathAlgorithm::YenKShortest => "yen_ksp",
        }
    }

    /// The strategy algorithm that this algorithm stands for.
    pub fn scalar_strategy(self, k_paths: usize) -> (r: ScalarRouteAlgorithm)
        ensures
            r == self.spec_scalar_strategy(k_paths),
    {
        match self {
            SPathAlgorithm::Dijkstra => ScalarRouteAlgorithm::Dijkstra,
            SPathAlgorithm::Ecmp => ScalarRouteAlgorithm::Ecmp,
            SPathAlgorithm::BellmanFord => ScalarRouteAlgorithm::BellmanFord,
            SPathAlgorithm::YenKShortest => ScalarRouteAlgorithm::YenKShortest {
                k_paths: if k_paths >= 1 {
                    k_paths
                } else {
                    1
                },
            },
        }
    }

    /// Whether the algorithm needs links without negative costs: all but
    /// Bellman-Ford do.
    pub fn requires_nonnegative_links(self) -> (r: bool)
        ensures
            r == !(self is BellmanFord),
    {
        match self {
            SPathAlgorithm::BellmanFord => false,
            _ => true,
        }
    }
}

} // verus!
