//! Synthetic memory traffic: configuration, pattern lists and the
//! bookkeeping of pattern checkpoints.

pub mod config;
pub mod logging;
pub mod patterns;
