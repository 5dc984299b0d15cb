//! Memory fences: a switchable timed queue whose completed fences wait in a
//! FIFO until the core collects them.

use std::collections::VecDeque;

use crate::timeflow::simple_queue::{append_to_deque, SimpleTimedQueue};
use crate::timeflow::types::{Reject, RejectReason};
use crate::timeq::{Cycle, ServerConfig, ServiceResult, Ticket};
use vstd::prelude::*;

pub use crate::timeflow::types::RejectReason as FenceRejectReason;

verus! {

#[derive(Debug, Clone)]
pub struct FenceRequest {
    pub warp: usize,
    pub request_id: u64,
}

#[derive(Debug, Clone)]
pub struct FenceIssue {
    pub ticket: Ticket,
}

pub type FenceReject = Reject;

#[derive(Debug, Clone, Copy)]
pub struct FenceConfig {
    pub enabled: bool,
    pub queue: ServerConfig,
}

impl Default for FenceConfig {
    fn default() -> (r: Self)
        ensures
            !r.enabled,
            r.queue.base_latency == 1,
            r.queue.bytes_per_cycle == 1,
            r.queue.queue_capacity == 4,
            r.queue.completions_per_cycle == 1,
            r.queue.warmup_latency == 0,
    {
        Self {
            enabled: false,
            queue: ServerConfig {
                base_latency: 1,
                bytes_per_cycle: 1,
                queue_capacity: 4,
                completions_per_cycle: 1,
                warmup_latency: 0,
            },
        }
    }
}

pub struct FenceQueue {
    queue: SimpleTimedQueue<FenceRequest>,
    ready: VecDeque<FenceRequest>,
}

impl FenceQueue {
    pub closed spec fn queue_spec(&self) -> SimpleTimedQueue<FenceRequest> {
        self.queue
    }

    /// Released fences waiting to be collected, oldest first.
    pub closed spec fn released(&self) -> Seq<FenceRequest> {
        self.ready@
    }

    pub open spec fn wf(&self) -> bool {
        self.queue_spec().wf()
    }

    pub fn new(config: FenceConfig) -> (r: Self)
        requires
            config.queue.valid(),
        ensures
            r.wf(),
            r.queue_spec().enabled_spec() == config.enabled,
            r.queue_spec().server_spec().cfg() == config.queue,
            r.queue_spec().server_spec().fresh(config.queue),
            r.queue_spec().server_spec().pending().len() == 0,
            r.queue_spec().server_spec().done().len() == 0,
            r.queue_spec().server_spec().next_issue() == 0,
            r.queue_spec().server_spec().warmup() == config.queue.warmup_latency,
            r.released().len() == 0,
    {
        Self { queue: SimpleTimedQueue::new(config.enabled, config.queue), ready: VecDeque::new() }
    }

    /// Issue a fence. When the queue is disabled the fence is released at
    /// once; otherwise it goes through the timed queue as a zero-byte
    /// request.
    pub fn try_issue(&mut self, now: Cycle, request: FenceRequest) -> (r: Result<
        FenceIssue,
        FenceReject,
    >)
        requires
            old(self).wf(),
        ensures
            final(self).wf(),
            !old(self).queue_spec().enabled_spec() ==> {
                &&& r matches Ok(i) && i.ticket.issued() == now && i.ticket.ready() == now
                    && i.ticket.size() == 0
                &&& final(self).released() == old(self).released().push(request)
                &&& final(self).queue_spec() == old(self).queue_spec()
            },
            old(self).queue_spec().enabled_spec() ==> {
                &&& final(self).released() == old(self).released()
                &&& old(self).queue_spec().issue_post(
                    &final(self).queue_spec(),
                    now,
                    request,
                    0,
                    match r {
                        Ok(i) => Ok(i.ticket),
                        Err(e) => Err((e.retry_at, e.reason)),
                    },
                )
            },
    {
        if !self.queue.is_enabled() {
            self.ready.push_back(request);
            return Ok(FenceIssue { ticket: Ticket::new(now, now, 0) });
        }
        match self.queue.try_issue(now, request, 0) {
            Ok(ticket) => Ok(FenceIssue { ticket }),
            Err(err) => Err(Reject::new(err.retry_at, err.reason)),
        }
    }

    /// Release the fences whose service completes at `now`.
    pub fn tick(&mut self, now: Cycle)
        requires
            old(self).wf(),
        ensures
            final(self).wf(),
            final(self).queue_spec().enabled_spec() == old(self).queue_spec().enabled_spec(),
            !old(self).queue_spec().enabled_spec() ==> final(self).released() == old(
                self,
            ).released() && final(self).queue_spec() == old(self).queue_spec(),
            old(self).queue_spec().enabled_spec() ==> {
                let s = old(self).queue_spec().server_spec();
                let k = s.moved_at(now) as int;
                &&& final(self).released() == old(self).released() + (s.done() + s.pending().take(
                    k,
                )).map_values(|x: ServiceResult<FenceRequest>| x.payload)
                &&& final(self).queue_spec().server_spec().pending() == s.pending().skip(k)
                &&& s.serviced(&final(self).queue_spec().server_spec(), now)
            },
    {
        let payloads = self.queue.tick(now);
        append_to_deque(payloads, &mut self.ready);
    }

    /// Collect the oldest released fence.
    pub fn pop_ready(&mut self) -> (r: Option<FenceRequest>)
        ensures
            final(self).queue_spec() == old(self).queue_spec(),
            old(self).released().len() == 0 ==> r is None && final(self).released() == old(
                self,
            ).released(),
            old(self).released().len() > 0 ==> r == Some(old(self).released()[0])
                && final(self).released() == old(self).released().drop_first(),
    {
        let r = self.ready.pop_front();
        proof {
            if old(self).released().len() > 0 {
                assert(self.released() =~= old(self).released().drop_first());
            }
        }
        r
    }

    pub fn is_enabled(&self) -> (r: bool)
        ensures
            r == self.queue_spec().enabled_spec(),
    {
        self.queue.is_enabled()
    }
}

} // verus!
