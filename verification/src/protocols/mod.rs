//! Protocol engines and the route computations they share.

pub mod base;
pub mod ddr;
pub mod engine;
pub mod link_state;
pub mod ospf;
pub mod rip;
pub mod selection;
pub mod spath;
pub mod topk;
pub mod route_compute;
