//! Building blocks of route computation. Costs are bit patterns of
//! double-precision numbers and are only ordered and compared here.

pub mod bellman_ford;
pub mod frontier;
pub mod ksp;
pub mod lfa;
pub mod multimetric;
pub mod neighbor_forest;
pub mod pareto;
pub mod path_order;
pub mod spf;
pub mod strategy;
pub mod traits;
pub mod types;
