//! A fixed group of timed servers addressed by position.

use crate::timeflow::smem::arbiter::{pick_ready_port, port_blocked};
use crate::timeq::{AcceptStatus, Backpressure, Cycle, ServerConfig, ServiceRequest, ServiceResult, Ticket, TimedServer};
use vstd::prelude::*;

verus! {

pub struct PortGroup<T> {
    servers: Vec<TimedServer<T>>,
}

impl<T> PortGroup<T> {
    pub closed spec fn len_spec(&self) -> nat {
        self.servers@.len()
    }

    /// Server `i` of the group.
    pub closed spec fn at(&self, i: int) -> TimedServer<T> {
        self.servers@[i]
    }

    pub closed spec fn wf(&self) -> bool {
        forall|i: int| 0 <= i < self.servers@.len() ==> (#[trigger] self.servers@[i]).wf()
    }

    /// Only server `i` may differ between `self` and `post`.
    pub open spec fn same_but(&self, post: &Self, i: int) -> bool {
        &&& post.wf()
        &&& post.len_spec() == self.len_spec()
        &&& forall|j: int| 0 <= j < self.len_spec() && j != i ==> #[trigger] post.at(j) == self.at(j)
    }

    /// Every server is just built from `config`.
    pub open spec fn all_fresh(&self, config: ServerConfig) -> bool {
        forall|i: int| 0 <= i < self.len_spec() ==> (#[trigger] self.at(i)).fresh(config)
    }

    /// `count` servers built from `config`.
    pub fn new(count: usize, config: ServerConfig) -> (r: Self)
        requires
            config.valid(),
        ensures
            r.wf(),
            r.len_spec() == count,
            forall|i: int|
                0 <= i < count ==> (#[trigger] r.at(i)).cfg() == config && r.at(i).pending().len() == 0
                    && r.at(i).done().len() == 0,
            r.all_fresh(config),
    {
        let mut servers: Vec<TimedServer<T>> = Vec::with_capacity(count);
        let mut k: usize = 0;
        while k < count
            invariant
                k <= count,
                config.valid(),
                servers@.len() == k,
                forall|i: int| 0 <= i < k ==> (#[trigger] servers@[i]).wf(),
                forall|i: int|
                    0 <= i < k ==> (#[trigger] servers@[i]).cfg() == config && servers@[i].pending().len()
                        == 0 && servers@[i].done().len() == 0,
                forall|i: int| 0 <= i < k ==> (#[trigger] servers@[i]).fresh(config),
            decreases count - k,
        {
            servers.push(TimedServer::new(config));
            k = k + 1;
        }
        Self { servers }
    }

    pub fn len(&self) -> (r: usize)
        ensures
            r == self.len_spec(),
    {
        self.servers.len()
    }

    pub fn try_enqueue(&mut self, i: usize, now: Cycle, request: ServiceRequest<T>) -> (r: Result<
        Ticket,
        Backpressure<T>,
    >)
        requires
            old(self).wf(),
            i < old(self).len_spec(),
        ensures
            old(self).same_but(final(self), i as int),
            old(self).at(i as int).is_full() ==> r is Err && old(self).at(i as int).refused_full(
                &final(self).at(i as int),
            ),
            !old(self).at(i as int).is_full() && old(self).at(i as int).is_warming(now) ==> r is Err
                && old(self).at(i as int).refused_busy(&final(self).at(i as int)),
            !old(self).at(i as int).is_full() && !old(self).at(i as int).is_warming(now) ==> (
            r matches Ok(t) && old(self).at(i as int).accepted(
                &final(self).at(i as int),
                now,
                request.payload,
                request.size_bytes,
                t,
            )),
            r matches Err(bp) ==> bp.request_spec() == request,
    {
        let r = self.servers[i].try_enqueue(now, request);
        proof {
            assert forall|j: int| 0 <= j < self.servers@.len() implies (#[trigger] self.servers@[j]).wf() by {
                if j != i {
                    assert(self.servers@[j] == old(self).servers@[j]);
                }
            }
        }
        r
    }

    pub fn accept_status(&self, i: usize, now: Cycle) -> (r: AcceptStatus)
        requires
            self.wf(),
            i < self.len_spec(),
        ensures
            self.at(i as int).is_full() ==> r is QueueFull,
            !self.at(i as int).is_full() && self.at(i as int).is_warming(now) ==> r == (AcceptStatus::Busy {
                available_at: self.at(i as int).warmup(),
            }),
            !self.at(i as int).is_full() && !self.at(i as int).is_warming(now) ==> r == AcceptStatus::Ready,
    {
        self.servers[i].accept_status(now)
    }

    pub fn available_slots(&self, i: usize) -> (r: usize)
        requires
            self.wf(),
            i < self.len_spec(),
        ensures
            r == self.at(i as int).cfg().queue_capacity - self.at(i as int).outstanding_spec(),
    {
        self.servers[i].available_slots()
    }

    pub fn outstanding(&self, i: usize) -> (r: usize)
        requires
            self.wf(),
            i < self.len_spec(),
        ensures
            r == self.at(i as int).outstanding_spec(),
    {
        self.servers[i].outstanding()
    }

    /// Outstanding requests of the first `n` servers, summed with
    /// saturation.
    pub open spec fn outstanding_upto(&self, n: int) -> usize
        decreases n,
    {
        if n <= 0 {
            0
        } else {
            let prev = self.outstanding_upto(n - 1);
            let x = self.at(n - 1).outstanding_spec();
            if prev + x > usize::MAX {
                usize::MAX
            } else {
                (prev + x) as usize
            }
        }
    }

    /// Free queue entries of servers `[base, base + n)`, summed with
    /// saturation.
    pub open spec fn free_upto(&self, base: int, n: int) -> usize
        decreases n,
    {
        if n <= 0 {
            0
        } else {
            let prev = self.free_upto(base, n - 1);
            let x = self.at(base + n - 1).cfg().queue_capacity - self.at(base + n - 1).outstanding_spec();
            if prev + x > usize::MAX {
                usize::MAX
            } else {
                (prev + x) as usize
            }
        }
    }

    /// Free queue entries of servers `[base, base + count)` (saturating).
    pub fn free_slots(&self, base: usize, count: usize) -> (r: usize)
        requires
            self.wf(),
            base + count <= self.len_spec(),
        ensures
            r == self.free_upto(base as int, count as int),
    {
        let mut total: usize = 0;
        let mut k: usize = 0;
        let n = self.servers.len();
        while k < count
            invariant
                self.wf(),
                n == self.servers@.len(),
                base + count <= self.servers@.len(),
                k <= count,
                total == self.free_upto(base as int, k as int),
            decreases count - k,
        {
            total = total.saturating_add(self.servers[base + k].available_slots());
            k = k + 1;
        }
        total
    }

    /// Sum of the outstanding requests of all servers (saturating).
    pub fn outstanding_total(&self) -> (r: usize)
        requires
            self.wf(),
        ensures
            r == self.outstanding_upto(self.len_spec() as int),
    {
        let mut total: usize = 0;
        let mut i: usize = 0;
        while i < self.servers.len()
            invariant
                self.wf(),
                i <= self.servers@.len(),
                total == self.outstanding_upto(i as int),
            decreases self.servers@.len() - i,
        {
            total = total.saturating_add(self.servers[i].outstanding());
            i = i + 1;
        }
        total
    }

    /// Position in `[base, base + count)` of the first server, scanning
    /// round robin from `rr_next`, that would accept a request at `now`; the
    /// cursor then moves past it.
    pub fn pick_ready(&self, base: usize, count: usize, rr_next: &mut usize, now: Cycle) -> (r: Option<
        usize,
    >)
        requires
            self.wf(),
            base + count <= self.len_spec(),
        ensures
            count == 0 ==> r is None && *final(rr_next) == *old(rr_next),
            r matches Some(p) ==> p < count && !self.blocked(base + p, now) && *final(rr_next) == (p
                + 1) % (count as int),
            r is None ==> *final(rr_next) == *old(rr_next) && forall|p: int|
                0 <= p < count ==> #[trigger] self.blocked(base + p, now),
    {
        let r = pick_ready_port(&self.servers, base, count, rr_next, now);
        proof {
            if r is None {
                assert forall|p: int| 0 <= p < count implies #[trigger] self.blocked(base + p, now) by {
                    assert(port_blocked(self.servers@, base as int, p, now));
                }
            }
        }
        r
    }

    /// Server `i` would refuse a request at `now`.
    pub open spec fn blocked(&self, i: int, now: Cycle) -> bool {
        self.at(i).is_full() || self.at(i).is_warming(now)
    }

    pub fn peek_ready(&mut self, i: usize, now: Cycle) -> (r: Option<&ServiceResult<T>>)
        requires
            old(self).wf(),
            i < old(self).len_spec(),
        ensures
            old(self).same_but(final(self), i as int),
            old(self).at(i as int).advanced(&final(self).at(i as int), now),
            final(self).at(i as int).done().len() == 0 ==> r is None,
            final(self).at(i as int).done().len() > 0 ==> r == Some(&final(self).at(i as int).done()[0]),
            final(self).at(i as int).moved_at(now) == 0,
            final(self).at(i as int).outstanding_spec() == old(self).at(i as int).outstanding_spec(),
    {
        proof {
            assert(self.servers@[i as int].wf());
        }
        let ghost pre = self.servers@;
        self.servers[i].advance_ready(now);
        proof {
            TimedServer::lemma_same_cycle_moves_once(&pre[i as int], &self.servers@[i as int], now);
            pre[i as int].lemma_visible_only_when_ready(now);
            assert forall|j: int| 0 <= j < self.servers@.len() implies (#[trigger] self.servers@[j]).wf() by {
                if j != i {
                    assert(self.servers@[j] == pre[j]);
                }
            }
        }
        self.servers[i].front_ready()
    }

    pub fn pop_ready(&mut self, i: usize, now: Cycle) -> (r: Option<ServiceResult<T>>)
        requires
            old(self).wf(),
            i < old(self).len_spec(),
        ensures
            old(self).same_but(final(self), i as int),
            old(self).at(i as int).moved_at(now) == 0 && old(self).at(i as int).done().len() > 0 ==> r
                is Some && final(self).at(i as int).outstanding_spec() == old(self).at(
                i as int,
            ).outstanding_spec() - 1,
    {
        proof {
            self.servers@[i as int].lemma_visible_only_when_ready(now);
        }
        let r = self.servers[i].pop_ready(now);
        proof {
            assert forall|j: int| 0 <= j < self.servers@.len() implies (#[trigger] self.servers@[j]).wf() by {
                if j != i {
                    assert(self.servers@[j] == old(self).servers@[j]);
                }
            }
        }
        r
    }

    pub fn service_ready(&mut self, i: usize, now: Cycle) -> (r: Vec<ServiceResult<T>>)
        requires
            old(self).wf(),
            i < old(self).len_spec(),
        ensures
            old(self).same_but(final(self), i as int),
            r@ == old(self).at(i as int).serviced_out(now),
            old(self).at(i as int).serviced(&final(self).at(i as int), now),
    {
        let r = self.servers[i].service_ready(now);
        proof {
            assert forall|j: int| 0 <= j < self.servers@.len() implies (#[trigger] self.servers@[j]).wf() by {
                if j != i {
                    assert(self.servers@[j] == old(self).servers@[j]);
                }
            }
        }
        r
    }
}

} // verus!
