//! A flow-graph node backed by a single timed server.

use crate::timeflow::graph::TimedNode;
use crate::timeq::{Backpressure, Cycle, ServiceRequest, ServiceResult, Ticket, TimedServer};
use vstd::prelude::*;

verus! {

pub struct ServerNode<T> {
    name: String,
    server: TimedServer<T>,
}

impl<T> ServerNode<T> {
    pub closed spec fn label(&self) -> String {
        self.name
    }

    /// The server behind the node.
    pub closed spec fn server_spec(&self) -> TimedServer<T> {
        self.server
    }

    /// Completions that become visible at `now`, oldest first.
    pub open spec fn visible(&self, now: Cycle) -> Seq<ServiceResult<T>> {
        let s = self.server_spec();
        s.done() + s.pending().take(s.moved_at(now) as int)
    }

    pub fn new(name: impl Into<String>, server: TimedServer<T>) -> (r: Self)
        requires
            server.wf(),
        ensures
            r.server_spec() == server,
            r.inv(),
    {
        Self { name: name.into(), server }
    }
}

impl<T> TimedNode<T> for ServerNode<T> {
    open spec fn inv(&self) -> bool {
        self.server_spec().wf()
    }

    open spec fn next_ready(&self, now: Cycle) -> Option<ServiceResult<T>> {
        if self.visible(now).len() > 0 {
            Some(self.visible(now)[0])
        } else {
            None
        }
    }

    /// The server's rule: refused when full, refused while warming up
    /// (busy until the warm-up ends), accepted otherwise.
    open spec fn put_outcome(
        &self,
        post: &Self,
        now: Cycle,
        request: ServiceRequest<T>,
        r: Result<Ticket, Backpressure<T>>,
    ) -> bool {
        let s = self.server_spec();
        let s2 = post.server_spec();
        &&& post.label() == self.label()
        &&& s.is_full() ==> r == Err::<Ticket, Backpressure<T>>(
            Backpressure::QueueFull { request, capacity: s.cfg().queue_capacity },
        ) && s.refused_full(&s2)
        &&& !s.is_full() && s.is_warming(now) ==> r == Err::<Ticket, Backpressure<T>>(
            Backpressure::Busy { request, available_at: s.warmup() },
        ) && s.refused_busy(&s2)
        &&& !s.is_full() && !s.is_warming(now) ==> (r matches Ok(t) && s.accepted(
            &s2,
            now,
            request.payload,
            request.size_bytes,
            t,
        ))
    }

    open spec fn node_name(&self) -> String {
        self.label()
    }

    /// The server made what became ready by `now` visible.
    open spec fn ticked(&self, post: &Self, now: Cycle) -> bool {
        &&& self.server_spec().advanced(&post.server_spec(), now)
        &&& post.label() == self.label()
    }

    /// The server made what became ready by `now` visible, and nothing
    /// left it.
    open spec fn peeked(&self, post: &Self, now: Cycle) -> bool {
        &&& self.server_spec().advanced(&post.server_spec(), now)
        &&& post.label() == self.label()
    }

    /// The oldest visible completion left the server.
    open spec fn took(&self, post: &Self, now: Cycle) -> bool {
        &&& self.visible(now).len() > 0 ==> post.visible(now) == self.visible(now).drop_first()
        &&& self.visible(now).len() == 0 ==> post.visible(now).len() == 0
        &&& post.label() == self.label()
    }

    fn name(&self) -> &str {
        self.name.as_str()
    }

    fn try_put(&mut self, now: Cycle, request: ServiceRequest<T>) -> (r: Result<
        Ticket,
        Backpressure<T>,
    >) {
        self.server.try_enqueue(now, request)
    }

    fn tick(&mut self, now: Cycle)
        ensures
            old(self).server_spec().advanced(&final(self).server_spec(), now),
            final(self).label() == old(self).label(),
    {
        self.server.advance_ready(now);
    }

    fn peek_ready(&mut self, now: Cycle) -> (r: Option<&ServiceResult<T>>) {
        self.server.peek_ready(now)
    }

    fn take_ready(&mut self, now: Cycle) -> (r: Option<ServiceResult<T>>)
        ensures
            old(self).visible(now).len() > 0 ==> final(self).visible(now) == old(self).visible(
                now,
            ).drop_first(),
            old(self).visible(now).len() == 0 ==> final(self).visible(now).len() == 0,
            final(self).label() == old(self).label(),
    {
        let ghost pre = self.server;
        let r = self.server.pop_ready(now);
        proof {
            TimedServer::lemma_drained_cycle(&pre, &self.server, now);
            assert(self.server.pending().take(0) =~= Seq::<ServiceResult<T>>::empty());
            assert(self.visible(now) =~= self.server.done());
        }
        r
    }

    fn outstanding(&self) -> usize {
        self.server.outstanding()
    }
}

} // verus!
