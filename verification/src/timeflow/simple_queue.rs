//! A timed server that can be switched off: when disabled every request
//! completes immediately and nothing is queued.

use crate::timeflow::types::{Reject, RejectReason, RejectWith};
use crate::timeq::{
    normalize_retry, normalize_retry_spec, max_spec, Backpressure, Cycle, ServerConfig,
    ServiceRequest, ServiceResult, Ticket, TimedServer,
};
use std::collections::VecDeque;
use vstd::prelude::*;

verus! {

/// Append the elements of `src`, in order, to the back of `dst`.
pub fn append_to_deque<T>(src: Vec<T>, dst: &mut VecDeque<T>)
    ensures
        final(dst)@ == old(dst)@ + src@,
{
    let ghost s0 = src@;
    let mut src = src;
    let mut rev: Vec<T> = Vec::new();
    while src.len() > 0
        invariant
            rev@.len() + src@.len() == s0.len(),
            src@ == s0.take(src@.len() as int),
            forall|i: int| 0 <= i < rev@.len() ==> rev@[i] == s0[s0.len() - 1 - i],
        decreases src@.len(),
    {
        let item = src.pop().unwrap();
        rev.push(item);
        proof {
            assert(src@ =~= s0.take(src@.len() as int));
        }
    }
    let ghost d0 = dst@;
    while rev.len() > 0
        invariant
            dst@.len() == d0.len() + (s0.len() - rev@.len()),
            forall|i: int| 0 <= i < d0.len() ==> dst@[i] == d0[i],
            forall|i: int| d0.len() <= i < dst@.len() ==> dst@[i] == s0[i - d0.len()],
            forall|i: int| 0 <= i < rev@.len() ==> rev@[i] == s0[s0.len() - 1 - i],
            rev@.len() <= s0.len(),
        decreases rev@.len(),
    {
        let item = rev.pop().unwrap();
        dst.push_back(item);
    }
    assert(dst@ =~= d0 + s0);
}

pub struct SimpleTimedQueue<T> {
    enabled: bool,
    server: TimedServer<T>,
}

impl<T> SimpleTimedQueue<T> {
    pub closed spec fn enabled_spec(&self) -> bool {
        self.enabled
    }

    /// The server that models the queue.
    pub closed spec fn server_spec(&self) -> TimedServer<T> {
        self.server
    }

    pub open spec fn wf(&self) -> bool {
        self.server_spec().wf()
    }

    /// Retry cycle suggested when the queue is full: the ready cycle of the
    /// oldest request in flight, or else the server's next free cycle.
    pub open spec fn full_retry_spec(&self, now: Cycle) -> Cycle {
        let s = self.server_spec();
        normalize_retry_spec(
            now,
            if s.pending().len() > 0 {
                s.pending()[0].ticket.ready()
            } else {
                max_spec(s.next_issue(), s.warmup())
            },
        )
    }

    /// Retry cycle suggested during warm-up.
    pub open spec fn busy_retry_spec(&self, now: Cycle) -> Cycle {
        normalize_retry_spec(now, self.server_spec().warmup())
    }

    pub fn new(enabled: bool, queue: ServerConfig) -> (r: Self)
        requires
            queue.valid(),
        ensures
            r.wf(),
            r.enabled_spec() == enabled,
            r.server_spec().cfg() == queue,
            r.server_spec().pending().len() == 0,
            r.server_spec().done().len() == 0,
            r.server_spec().next_issue() == 0,
            r.server_spec().warmup() == queue.warmup_latency,
            r.server_spec().stat().is_zero(),
            r.server_spec().fresh(queue),
    {
        Self { enabled, server: TimedServer::new(queue) }
    }

    pub fn is_enabled(&self) -> (r: bool)
        ensures
            r == self.enabled_spec(),
    {
        self.enabled
    }

    /// Relation between the queue before and after an issue attempt whose
    /// outcome carries the refusal reason `reason` (or acceptance).
    pub open spec fn issue_post(
        &self,
        post: &Self,
        now: Cycle,
        payload: T,
        bytes: u32,
        r: Result<Ticket, (Cycle, RejectReason)>,
    ) -> bool {
        &&& post.enabled_spec() == self.enabled_spec()
        &&& post.wf()
        &&& !self.enabled_spec() ==> {
            &&& r matches Ok(t) && t.issued() == now && t.ready() == now && t.size() == bytes
            &&& post.server_spec() == self.server_spec()
        }
        &&& self.enabled_spec() ==> {
            let s = self.server_spec();
            let p = post.server_spec();
            &&& s.is_full() ==> r == Err::<Ticket, (Cycle, RejectReason)>(
                (self.full_retry_spec(now), RejectReason::QueueFull),
            ) && s.refused_full(&p)
            &&& !s.is_full() && s.is_warming(now) ==> r == Err::<Ticket, (Cycle, RejectReason)>(
                (self.busy_retry_spec(now), RejectReason::Busy),
            ) && s.refused_busy(&p)
            &&& !s.is_full() && !s.is_warming(now) ==> (r matches Ok(t) && s.accepted(
                &p,
                now,
                payload,
                bytes,
                t,
            ))
        }
    }

    pub open spec fn reject_view(r: Result<Ticket, Reject>) -> Result<Ticket, (Cycle, RejectReason)> {
        match r {
            Ok(t) => Ok(t),
            Err(e) => Err((e.retry_at, e.reason)),
        }
    }

    pub open spec fn reject_with_view(r: Result<Ticket, RejectWith<T>>) -> Result<
        Ticket,
        (Cycle, RejectReason),
    > {
        match r {
            Ok(t) => Ok(t),
            Err(e) => Err((e.retry_at, e.reason)),
        }
    }

    /// Issue `payload` of `bytes` bytes at `now`.
    pub fn try_issue(&mut self, now: Cycle, payload: T, bytes: u32) -> (r: Result<Ticket, Reject>)
        requires
            old(self).wf(),
        ensures
            old(self).issue_post(final(self), now, payload, bytes, Self::reject_view(r)),
    {
        if !self.enabled {
            return Ok(Ticket::new(now, now, bytes));
        }
        let request = ServiceRequest::new(payload, bytes);
        let ghost pre = *self;
        match self.server.try_enqueue(now, request) {
            Ok(ticket) => Ok(ticket),
            Err(Backpressure::Busy { available_at, .. }) => Err(
                Reject::new(normalize_retry(now, available_at), RejectReason::Busy),
            ),
            Err(Backpressure::QueueFull { .. }) => {
                let retry_at = self.queue_full_retry(now);
                proof {
                    assert(self.server.pending() == pre.server.pending());
                }
                Err(Reject::new(retry_at, RejectReason::QueueFull))
            },
        }
    }

    /// Like `try_issue`, but a refusal hands the payload back.
    pub fn try_issue_with_payload(&mut self, now: Cycle, payload: T, bytes: u32) -> (r: Result<
        Ticket,
        RejectWith<T>,
    >)
        requires
            old(self).wf(),
        ensures
            old(self).issue_post(final(self), now, payload, bytes, Self::reject_with_view(r)),
            r matches Err(e) ==> e.payload == payload,
    {
        if !self.enabled {
            return Ok(Ticket::new(now, now, bytes));
        }
        let request = ServiceRequest::new(payload, bytes);
        match self.server.try_enqueue(now, request) {
            Ok(ticket) => Ok(ticket),
            Err(Backpressure::Busy { request, available_at }) => {
                let retry_at = normalize_retry(now, available_at);
                Err(RejectWith::new(request.payload, retry_at, RejectReason::Busy))
            },
            Err(Backpressure::QueueFull { request, .. }) => {
                let retry_at = self.queue_full_retry(now);
                Err(RejectWith::new(request.payload, retry_at, RejectReason::QueueFull))
            },
        }
    }

    fn queue_full_retry(&self, now: Cycle) -> (r: Cycle)
        ensures
            r == self.full_retry_spec(now),
    {
        let suggested = match self.server.oldest_ticket() {
            Some(ticket) => ticket.ready_at(),
            None => self.server.available_at(),
        };
        normalize_retry(now, suggested)
    }

    /// Drain the completions that are ready at `now` (none when disabled).
    pub fn tick_with_service_result(&mut self, now: Cycle) -> (r: Vec<ServiceResult<T>>)
        requires
            old(self).wf(),
        ensures
            final(self).wf(),
            final(self).enabled_spec() == old(self).enabled_spec(),
            !old(self).enabled_spec() ==> r@.len() == 0 && *final(self) == *old(self),
            old(self).enabled_spec() ==> {
                let s = old(self).server_spec();
                let p = final(self).server_spec();
                let k = s.moved_at(now) as int;
                &&& r@ == s.done() + s.pending().take(k)
                &&& s.serviced(&p, now)
                &&& p.pending() == s.pending().skip(k)
                &&& p.done().len() == 0
                &&& p.cfg() == s.cfg()
                &&& p.warmup() == s.warmup()
            },
    {
        if !self.enabled {
            return Vec::new();
        }
        self.server.service_ready(now)
    }

    /// Drain the payloads that are ready at `now` (none when disabled).
    pub fn tick(&mut self, now: Cycle) -> (r: Vec<T>)
        requires
            old(self).wf(),
        ensures
            final(self).wf(),
            final(self).enabled_spec() == old(self).enabled_spec(),
            !old(self).enabled_spec() ==> r@.len() == 0 && *final(self) == *old(self),
            old(self).enabled_spec() ==> {
                let s = old(self).server_spec();
                let p = final(self).server_spec();
                let k = s.moved_at(now) as int;
                &&& r@ == (s.done() + s.pending().take(k)).map_values(
                    |x: ServiceResult<T>| x.payload,
                )
                &&& s.serviced(&p, now)
                &&& p.pending() == s.pending().skip(k)
                &&& p.done().len() == 0
                &&& p.cfg() == s.cfg()
                &&& p.warmup() == s.warmup()
            },
    {
        let mut results = self.tick_with_service_result(now);
        let ghost rs = results@;
        let mut out: Vec<T> = Vec::new();
        let mut rev: Vec<T> = Vec::new();
        while results.len() > 0
            invariant
                rev@.len() + results@.len() == rs.len(),
                results@ == rs.take(results@.len() as int),
                forall|i: int|
                    0 <= i < rev@.len() ==> rev@[i] == rs[rs.len() - 1 - i].payload,
            decreases results@.len(),
        {
            let item = results.pop().unwrap();
            rev.push(item.payload);
            proof {
                assert(results@ =~= rs.take(results@.len() as int));
            }
        }
        while rev.len() > 0
            invariant
                out@.len() + rev@.len() == rs.len(),
                forall|i: int| 0 <= i < out@.len() ==> out@[i] == rs[i].payload,
                forall|i: int|
                    0 <= i < rev@.len() ==> rev@[i] == rs[rs.len() - 1 - i].payload,
            decreases rev@.len(),
        {
            let p = rev.pop().unwrap();
            out.push(p);
        }
        assert(out@ =~= rs.map_values(|x: ServiceResult<T>| x.payload));
        out
    }

    /// Number of requests queued in the server.
    pub fn outstanding(&self) -> (r: usize)
        requires
            self.wf(),
        ensures
            r == self.server_spec().outstanding_spec(),
    {
        self.server.outstanding()
    }

    /// Enabled and holding at least one request.
    pub fn is_busy(&self) -> (r: bool)
        requires
            self.wf(),
        ensures
            r == (self.enabled_spec() && self.server_spec().outstanding_spec() > 0),
    {
        self.enabled && self.server.outstanding() > 0
    }
}

} // verus!
