//! Cycle-level timing model: bounded servers with latency and bandwidth,
//! the queues built on top of them, and the memory-system bookkeeping
//! (caches, MSHRs, banked shared memory) that a GPU core timing model needs.

pub mod timeflow;
pub mod timeq;
pub mod traffic;
