//! Counters kept by the global-memory model.

use crate::timeq::{max_spec, max_u64, sat_add, sat_sub, Cycle};
use vstd::prelude::*;

verus! {

/// The values of a [`GmemStats`].
#[derive(Debug, Clone, Copy)]
pub struct GmemCounters {
    pub issued: u64,
    pub completed: u64,
    pub queue_full_rejects: u64,
    pub busy_rejects: u64,
    pub bytes_issued: u64,
    pub bytes_completed: u64,
    pub accesses: u64,
    pub hits: u64,
    pub bytes_hits: u64,
    pub inflight: u64,
    pub max_inflight: u64,
    pub max_completion_queue: u64,
    pub last_completion_cycle: Option<Cycle>,
}

#[derive(Debug, Clone, Copy)]
pub struct GmemStats {
    issued: u64,
    completed: u64,
    queue_full_rejects: u64,
    busy_rejects: u64,
    bytes_issued: u64,
    bytes_completed: u64,
    accesses: u64,
    hits: u64,
    bytes_hits: u64,
    inflight: u64,
    max_inflight: u64,
    max_completion_queue: u64,
    last_completion_cycle: Option<Cycle>,
}

impl View for GmemStats {
    type V = GmemCounters;

    closed spec fn view(&self) -> GmemCounters {
        GmemCounters {
            issued: self.issued,
            completed: self.completed,
            queue_full_rejects: self.queue_full_rejects,
            busy_rejects: self.busy_rejects,
            bytes_issued: self.bytes_issued,
            bytes_completed: self.bytes_completed,
            accesses: self.accesses,
            hits: self.hits,
            bytes_hits: self.bytes_hits,
            inflight: self.inflight,
            max_inflight: self.max_inflight,
            max_completion_queue: self.max_completion_queue,
            last_completion_cycle: self.last_completion_cycle,
        }
    }
}

impl GmemCounters {
    pub open spec fn is_zero(self) -> bool {
        &&& self.issued == 0
        &&& self.completed == 0
        &&& self.queue_full_rejects == 0
        &&& self.busy_rejects == 0
        &&& self.bytes_issued == 0
        &&& self.bytes_completed == 0
        &&& self.accesses == 0
        &&& self.hits == 0
        &&& self.bytes_hits == 0
        &&& self.inflight == 0
        &&& self.max_inflight == 0
        &&& self.max_completion_queue == 0
        &&& self.last_completion_cycle is None
    }
}

impl GmemCounters {
    /// Counters after a request of `bytes` bytes is issued.
    pub open spec fn after_issue(self, bytes: u32) -> GmemCounters {
        GmemCounters {
            issued: sat_add(self.issued as int, 1),
            bytes_issued: sat_add(self.bytes_issued as int, bytes as int),
            inflight: sat_add(self.inflight as int, 1),
            max_inflight: max_spec(self.max_inflight, sat_add(self.inflight as int, 1)),
            ..self
        }
    }

    pub open spec fn after_busy(self) -> GmemCounters {
        GmemCounters { busy_rejects: sat_add(self.busy_rejects as int, 1), ..self }
    }

    pub open spec fn after_queue_full(self) -> GmemCounters {
        GmemCounters { queue_full_rejects: sat_add(self.queue_full_rejects as int, 1), ..self }
    }

    /// Counters after a request of `bytes` bytes completes at `now`.
    pub open spec fn after_completion(self, bytes: u32, now: Cycle) -> GmemCounters {
        GmemCounters {
            completed: sat_add(self.completed as int, 1),
            bytes_completed: sat_add(self.bytes_completed as int, bytes as int),
            inflight: sat_sub(self.inflight as int, 1),
            last_completion_cycle: Some(now),
            ..self
        }
    }

    /// Counters after a completion queue of `len` entries is observed.
    pub open spec fn after_queue_len(self, len: usize) -> GmemCounters {
        GmemCounters { max_completion_queue: max_spec(self.max_completion_queue, len as u64), ..self }
    }
}

/// Later of two optional completion cycles.
pub open spec fn later_completion(a: Option<Cycle>, b: Option<Cycle>) -> Option<Cycle> {
    match (a, b) {
        (Some(x), Some(y)) => Some(max_spec(x, y)),
        (None, Some(y)) => Some(y),
        (a, None) => a,
    }
}

/// Counters of `a` after those of `b` are added: sums saturate, maxima
/// combine, the in-flight count of `a` is kept, and the later completion
/// cycle wins.
pub open spec fn merged_counters(a: GmemCounters, b: GmemCounters) -> GmemCounters {
    GmemCounters {
        issued: sat_add(a.issued as int, b.issued as int),
        completed: sat_add(a.completed as int, b.completed as int),
        accesses: sat_add(a.accesses as int, b.accesses as int),
        hits: sat_add(a.hits as int, b.hits as int),
        bytes_hits: sat_add(a.bytes_hits as int, b.bytes_hits as int),
        queue_full_rejects: sat_add(a.queue_full_rejects as int, b.queue_full_rejects as int),
        busy_rejects: sat_add(a.busy_rejects as int, b.busy_rejects as int),
        bytes_issued: sat_add(a.bytes_issued as int, b.bytes_issued as int),
        bytes_completed: sat_add(a.bytes_completed as int, b.bytes_completed as int),
        max_inflight: max_spec(a.max_inflight, b.max_inflight),
        max_completion_queue: max_spec(a.max_completion_queue, b.max_completion_queue),
        last_completion_cycle: later_completion(a.last_completion_cycle, b.last_completion_cycle),
        inflight: a.inflight,
    }
}

impl Default for GmemStats {
    fn default() -> (r: Self)
        ensures
            r@.is_zero(),
    {
        Self {
            issued: 0,
            completed: 0,
            queue_full_rejects: 0,
            busy_rejects: 0,
            bytes_issued: 0,
            bytes_completed: 0,
            accesses: 0,
            hits: 0,
            bytes_hits: 0,
            inflight: 0,
            max_inflight: 0,
            max_completion_queue: 0,
            last_completion_cycle: None,
        }
    }
}

impl GmemStats {
    pub fn issued(&self) -> (r: u64)
        ensures
            r == self@.issued,
    {
        self.issued
    }

    pub fn completed(&self) -> (r: u64)
        ensures
            r == self@.completed,
    {
        self.completed
    }

    pub fn queue_full_rejects(&self) -> (r: u64)
        ensures
            r == self@.queue_full_rejects,
    {
        self.queue_full_rejects
    }

    pub fn busy_rejects(&self) -> (r: u64)
        ensures
            r == self@.busy_rejects,
    {
        self.busy_rejects
    }

    pub fn bytes_issued(&self) -> (r: u64)
        ensures
            r == self@.bytes_issued,
    {
        self.bytes_issued
    }

    pub fn bytes_completed(&self) -> (r: u64)
        ensures
            r == self@.bytes_completed,
    {
        self.bytes_completed
    }

    pub fn accesses(&self) -> (r: u64)
        ensures
            r == self@.accesses,
    {
        self.accesses
    }

    pub fn hits(&self) -> (r: u64)
        ensures
            r == self@.hits,
    {
        self.hits
    }

    pub fn bytes_hits(&self) -> (r: u64)
        ensures
            r == self@.bytes_hits,
    {
        self.bytes_hits
    }

    pub fn inflight(&self) -> (r: u64)
        ensures
            r == self@.inflight,
    {
        self.inflight
    }

    pub fn max_inflight(&self) -> (r: u64)
        ensures
            r == self@.max_inflight,
    {
        self.max_inflight
    }

    pub fn max_completion_queue(&self) -> (r: u64)
        ensures
            r == self@.max_completion_queue,
    {
        self.max_completion_queue
    }

    pub fn last_completion_cycle(&self) -> (r: Option<Cycle>)
        ensures
            r == self@.last_completion_cycle,
    {
        self.last_completion_cycle
    }

    /// Count an issued request of `bytes` bytes; it is in flight until it
    /// completes.
    pub fn record_issue(&mut self, bytes: u32)
        ensures
            final(self)@ == old(self)@.after_issue(bytes),
    {
        self.issued = self.issued.saturating_add(1);
        self.bytes_issued = self.bytes_issued.saturating_add(bytes as u64);
        self.inflight = self.inflight.saturating_add(1);
        self.max_inflight = max_u64(self.max_inflight, self.inflight);
    }

    /// Count a cache access; its size does not enter the counters.
    pub fn record_access(&mut self, _bytes: u32)
        ensures
            final(self)@ == (GmemCounters {
                accesses: sat_add(old(self)@.accesses as int, 1),
                ..old(self)@
            }),
    {
        self.accesses = self.accesses.saturating_add(1);
    }

    pub fn record_hit(&mut self, bytes: u32)
        ensures
            final(self)@ == (GmemCounters {
                hits: sat_add(old(self)@.hits as int, 1),
                bytes_hits: sat_add(old(self)@.bytes_hits as int, bytes as int),
                ..old(self)@
            }),
    {
        self.hits = self.hits.saturating_add(1);
        self.bytes_hits = self.bytes_hits.saturating_add(bytes as u64);
    }

    pub fn record_busy_reject(&mut self)
        ensures
            final(self)@ == old(self)@.after_busy(),
    {
        self.busy_rejects = self.busy_rejects.saturating_add(1);
    }

    pub fn record_queue_full_reject(&mut self)
        ensures
            final(self)@ == old(self)@.after_queue_full(),
    {
        self.queue_full_rejects = self.queue_full_rejects.saturating_add(1);
    }

    /// Count a completion of `bytes` bytes at `now`; one fewer request is in
    /// flight.
    pub fn record_completion(&mut self, bytes: u32, now: Cycle)
        ensures
            final(self)@ == old(self)@.after_completion(bytes, now),
    {
        self.completed = self.completed.saturating_add(1);
        self.bytes_completed = self.bytes_completed.saturating_add(bytes as u64);
        self.inflight = self.inflight.saturating_sub(1);
        self.last_completion_cycle = Some(now);
    }

    /// Record the length of a completion queue as a high-water mark.
    pub fn update_completion_queue(&mut self, completion_len: usize)
        ensures
            final(self)@ == old(self)@.after_queue_len(completion_len),
    {
        self.max_completion_queue = max_u64(self.max_completion_queue, completion_len as u64);
    }

    /// Add the counters of `other` into these.
    pub fn accumulate_from(&mut self, other: &GmemStats)
        ensures
            final(self)@ == merged_counters(old(self)@, other@),
    {
        self.issued = self.issued.saturating_add(other.issued);
        self.completed = self.completed.saturating_add(other.completed);
        self.accesses = self.accesses.saturating_add(other.accesses);
        self.hits = self.hits.saturating_add(other.hits);
        self.bytes_hits = self.bytes_hits.saturating_add(other.bytes_hits);
        self.queue_full_rejects = self.queue_full_rejects.saturating_add(other.queue_full_rejects);
        self.busy_rejects = self.busy_rejects.saturating_add(other.busy_rejects);
        self.bytes_issued = self.bytes_issued.saturating_add(other.bytes_issued);
        self.bytes_completed = self.bytes_completed.saturating_add(other.bytes_completed);
        self.max_inflight = max_u64(self.max_inflight, other.max_inflight);
        self.max_completion_queue = max_u64(self.max_completion_queue, other.max_completion_queue);
        self.last_completion_cycle = match (self.last_completion_cycle, other.last_completion_cycle) {
            (Some(a), Some(b)) => Some(max_u64(a, b)),
            (None, Some(b)) => Some(b),
            (a, None) => a,
        };
    }
}

} // verus!
