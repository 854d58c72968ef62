//! Verified core of an intra-domain routing daemon: control-plane state,
//! route tables, what the engines select and build from the results of
//! their searches, the decisions of the daemon loop, and queueing
//! disciplines. Costs and times are carried as the bit patterns of
//! double-precision numbers, which are ordered and compared here and
//! computed with elsewhere.

pub mod algo;
pub mod id_map;
pub mod id_set;
pub mod model;
pub mod protocols;
pub mod rng;
pub mod runtime;
pub mod text;
pub mod text_map;
