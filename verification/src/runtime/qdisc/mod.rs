//! Queueing disciplines and the bookkeeping they share.

pub mod controller;
pub mod driver;
pub mod ecn;
pub mod fifo;
pub mod pfifo_fast;
pub mod prio;
pub mod queue_disc;
pub mod red;
pub mod strategy;
