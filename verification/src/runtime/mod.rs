//! Runtime-side components: configuration, the daemon's decisions and
//! queueing disciplines.

pub mod config;
pub mod daemon;
pub mod forwarding;
pub mod qdisc;
