//! Operand fetch: a switchable timed queue with no payload.

use crate::timeflow::simple_queue::SimpleTimedQueue;
use crate::timeflow::types::Reject;
use crate::timeq::ServerConfig;
use vstd::prelude::*;

pub use crate::timeflow::types::RejectReason as OperandFetchRejectReason;

verus! {

pub type OperandFetchReject = Reject;

#[derive(Debug, Clone, Copy)]
pub struct OperandFetchConfig {
    pub enabled: bool,
    pub queue: ServerConfig,
}

impl OperandFetchConfig {
    /// The values that `default()` gives.
    pub open spec fn is_default(self) -> bool {
        &&& !self.enabled
        &&& self.queue.base_latency == 0
        &&& self.queue.bytes_per_cycle == 1024
        &&& self.queue.queue_capacity == 16
        &&& self.queue.completions_per_cycle == 1
        &&& self.queue.warmup_latency == 0
    }
}

impl Default for OperandFetchConfig {
    fn default() -> (r: Self)
        ensures
            r.is_default(),
    {
        Self {
            enabled: false,
            queue: ServerConfig {
                base_latency: 0,
                bytes_per_cycle: 1024,
                queue_capacity: 16,
                completions_per_cycle: 1,
                warmup_latency: 0,
            },
        }
    }
}

/// The operand-fetch queue is a timed queue without payload.
pub type OperandFetchQueue = SimpleTimedQueue<()>;

} // verus!
