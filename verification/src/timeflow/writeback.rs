//! Register writeback: a switchable timed queue of memory completions whose
//! results wait in a FIFO until the core retires them.

use std::collections::VecDeque;

use crate::timeflow::gmem::GmemCompletion;
use crate::timeflow::simple_queue::{append_to_deque, SimpleTimedQueue};
use crate::timeflow::smem::SmemCompletion;
use crate::timeflow::types::{Reject, RejectReason};
use crate::timeq::{sat_add, Cycle, ServerConfig, ServiceResult, Ticket};
use vstd::prelude::*;

pub use crate::timeflow::types::RejectReason as WritebackRejectReason;

verus! {

#[derive(Debug, Clone)]
pub enum WritebackPayload {
    Gmem(GmemCompletion),
    Smem(SmemCompletion),
}

#[derive(Debug, Clone)]
pub struct WritebackIssue {
    pub ticket: Ticket,
}

pub type WritebackReject = Reject;

#[derive(Debug, Clone, Copy)]
pub struct WritebackStats {
    pub issued: u64,
    pub completed: u64,
    pub queue_full_rejects: u64,
    pub busy_rejects: u64,
}

impl Default for WritebackStats {
    fn default() -> (r: Self)
        ensures
            r.issued == 0,
            r.completed == 0,
            r.queue_full_rejects == 0,
            r.busy_rejects == 0,
    {
        Self { issued: 0, completed: 0, queue_full_rejects: 0, busy_rejects: 0 }
    }
}

impl WritebackStats {
    /// Add the counters of `other` into `self` (saturating).
    pub fn accumulate(&mut self, other: &WritebackStats)
        ensures
            final(self).issued == sat_add(old(self).issued as int, other.issued as int),
            final(self).completed == sat_add(old(self).completed as int, other.completed as int),
            final(self).queue_full_rejects == sat_add(
                old(self).queue_full_rejects as int,
                other.queue_full_rejects as int,
            ),
            final(self).busy_rejects == sat_add(old(self).busy_rejects as int, other.busy_rejects as int),
    {
        self.issued = self.issued.saturating_add(other.issued);
        self.completed = self.completed.saturating_add(other.completed);
        self.queue_full_rejects = self.queue_full_rejects.saturating_add(other.queue_full_rejects);
        self.busy_rejects = self.busy_rejects.saturating_add(other.busy_rejects);
    }
}

#[derive(Debug, Clone, Copy)]
pub struct WritebackConfig {
    pub enabled: bool,
    pub queue: ServerConfig,
}

impl WritebackConfig {
    /// The values that `default()` gives.
    pub open spec fn is_default(self) -> bool {
        &&& !self.enabled
        &&& self.queue.base_latency == 0
        &&& self.queue.bytes_per_cycle == 1024
        &&& self.queue.queue_capacity == 16
        &&& self.queue.completions_per_cycle == 1
        &&& self.queue.warmup_latency == 0
    }
}

impl Default for WritebackConfig {
    fn default() -> (r: Self)
        ensures
            r.is_default(),
    {
        Self {
            enabled: false,
            queue: ServerConfig {
                base_latency: 0,
                bytes_per_cycle: 1024,
                queue_capacity: 16,
                completions_per_cycle: 1,
                warmup_latency: 0,
            },
        }
    }
}

pub struct WritebackQueue {
    queue: SimpleTimedQueue<WritebackPayload>,
    ready: VecDeque<WritebackPayload>,
    stats: WritebackStats,
}

impl WritebackQueue {
    pub closed spec fn queue_spec(&self) -> SimpleTimedQueue<WritebackPayload> {
        self.queue
    }

    /// Results waiting to be retired, oldest first.
    pub closed spec fn waiting(&self) -> Seq<WritebackPayload> {
        self.ready@
    }

    pub closed spec fn stat(&self) -> WritebackStats {
        self.stats
    }

    pub open spec fn wf(&self) -> bool {
        self.queue_spec().wf()
    }

    pub fn new(config: WritebackConfig) -> (r: Self)
        requires
            config.queue.valid(),
        ensures
            r.wf(),
            r.queue_spec().enabled_spec() == config.enabled,
            r.queue_spec().server_spec().cfg() == config.queue,
            r.queue_spec().server_spec().fresh(config.queue),
            r.queue_spec().server_spec().pending().len() == 0,
            r.queue_spec().server_spec().done().len() == 0,
            r.queue_spec().server_spec().next_issue() == 0,
            r.queue_spec().server_spec().warmup() == config.queue.warmup_latency,
            r.waiting().len() == 0,
            r.stat() == (WritebackStats { issued: 0, completed: 0, queue_full_rejects: 0, busy_rejects: 0 }),
    {
        Self {
            queue: SimpleTimedQueue::new(config.enabled, config.queue),
            ready: VecDeque::new(),
            stats: WritebackStats::default(),
        }
    }

    /// Issue a result for writeback. When disabled it is ready at once;
    /// otherwise it goes through the timed queue as a zero-byte request.
    /// Acceptances and each kind of refusal are counted.
    pub fn try_issue(&mut self, now: Cycle, payload: WritebackPayload) -> (r: Result<
        WritebackIssue,
        WritebackReject,
    >)
        requires
            old(self).wf(),
        ensures
            final(self).wf(),
            !old(self).queue_spec().enabled_spec() ==> {
                &&& r matches Ok(i) && i.ticket.issued() == now && i.ticket.ready() == now
                    && i.ticket.size() == 0
                &&& final(self).waiting() == old(self).waiting().push(payload)
                &&& final(self).queue_spec() == old(self).queue_spec()
            },
            old(self).queue_spec().enabled_spec() ==> {
                &&& final(self).waiting() == old(self).waiting()
                &&& old(self).queue_spec().issue_post(
                    &final(self).queue_spec(),
                    now,
                    payload,
                    0,
                    match r {
                        Ok(i) => Ok(i.ticket),
                        Err(e) => Err((e.retry_at, e.reason)),
                    },
                )
            },
            final(self).stat() == (match r {
                Ok(_) => WritebackStats {
                    issued: sat_add(old(self).stat().issued as int, 1),
                    ..old(self).stat()
                },
                Err(e) => match e.reason {
                    RejectReason::QueueFull => WritebackStats {
                        queue_full_rejects: sat_add(old(self).stat().queue_full_rejects as int, 1),
                        ..old(self).stat()
                    },
                    RejectReason::Busy => WritebackStats {
                        busy_rejects: sat_add(old(self).stat().busy_rejects as int, 1),
                        ..old(self).stat()
                    },
                },
            }),
    {
        if !self.queue.is_enabled() {
            self.ready.push_back(payload);
            self.stats.issued = self.stats.issued.saturating_add(1);
            return Ok(WritebackIssue { ticket: Ticket::new(now, now, 0) });
        }
        match self.queue.try_issue(now, payload, 0) {
            Ok(ticket) => {
                self.stats.issued = self.stats.issued.saturating_add(1);
                Ok(WritebackIssue { ticket })
            },
            Err(err) => {
                match err.reason {
                    RejectReason::QueueFull => {
                        self.stats.queue_full_rejects = self.stats.queue_full_rejects.saturating_add(1);
                    },
                    RejectReason::Busy => {
                        self.stats.busy_rejects = self.stats.busy_rejects.saturating_add(1);
                    },
                }
                Err(Reject::new(err.retry_at, err.reason))
            },
        }
    }

    /// Make the results whose service completes at `now` ready.
    pub fn tick(&mut self, now: Cycle)
        requires
            old(self).wf(),
        ensures
            final(self).wf(),
            final(self).stat() == old(self).stat(),
            final(self).queue_spec().enabled_spec() == old(self).queue_spec().enabled_spec(),
            !old(self).queue_spec().enabled_spec() ==> final(self).waiting() == old(self).waiting()
                && final(self).queue_spec() == old(self).queue_spec(),
            old(self).queue_spec().enabled_spec() ==> {
                let s = old(self).queue_spec().server_spec();
                let k = s.moved_at(now) as int;
                &&& final(self).waiting() == old(self).waiting() + (s.done() + s.pending().take(
                    k,
                )).map_values(|x: ServiceResult<WritebackPayload>| x.payload)
                &&& final(self).queue_spec().server_spec().pending() == s.pending().skip(k)
                &&& s.serviced(&final(self).queue_spec().server_spec(), now)
            },
    {
        let payloads = self.queue.tick(now);
        append_to_deque(payloads, &mut self.ready);
    }

    /// Retire the oldest ready result (counted as completed).
    pub fn pop_ready(&mut self) -> (r: Option<WritebackPayload>)
        ensures
            final(self).queue_spec() == old(self).queue_spec(),
            old(self).waiting().len() == 0 ==> r is None && final(self).waiting() == old(
                self,
            ).waiting() && final(self).stat() == old(self).stat(),
            old(self).waiting().len() > 0 ==> r == Some(old(self).waiting()[0])
                && final(self).waiting() == old(self).waiting().drop_first() && final(self).stat()
                == (WritebackStats {
                completed: sat_add(old(self).stat().completed as int, 1),
                ..old(self).stat()
            }),
    {
        let popped = self.ready.pop_front();
        if popped.is_some() {
            self.stats.completed = self.stats.completed.saturating_add(1);
            proof {
                assert(self.waiting() =~= old(self).waiting().drop_first());
            }
        }
        popped
    }

    pub fn has_ready(&self) -> (r: bool)
        ensures
            r == (self.waiting().len() > 0),
    {
        self.ready.len() > 0
    }

    pub fn is_enabled(&self) -> (r: bool)
        ensures
            r == self.queue_spec().enabled_spec(),
    {
        self.queue.is_enabled()
    }

    pub fn stats(&self) -> (r: WritebackStats)
        ensures
            r == self.stat(),
    {
        self.stats
    }

    pub fn clear_stats(&mut self)
        ensures
            final(self).stat() == (WritebackStats {
                issued: 0,
                completed: 0,
                queue_full_rejects: 0,
                busy_rejects: 0,
            }),
            final(self).queue_spec() == old(self).queue_spec(),
            final(self).waiting() == old(self).waiting(),
    {
        self.stats = WritebackStats::default();
    }
}

} // verus!
