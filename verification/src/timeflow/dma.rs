//! A DMA engine: a switchable timed queue that counts issued and completed transfers and recognizes its MMIO window and CSR addresses.

use crate::timeflow::simple_queue::SimpleTimedQueue;
use crate::timeflow::types::{Reject, RejectReason};
use crate::timeq::{bytes_of, sat_add, Cycle, ServerConfig, ServiceResult, Ticket};
use vstd::prelude::*;

pub use crate::timeflow::types::RejectReason as DmaRejectReason;

verus! {

pub type DmaReject = Reject;

#[derive(Debug, Clone)]
pub struct DmaConfig {
    pub enabled: bool,
    pub mmio_base: u64,
    pub mmio_size: u64,
    pub csr_addrs: Vec<u32>,
    pub queue: ServerConfig,
}

impl Default for DmaConfig {
    fn default() -> (r: Self)
        ensures
            !r.enabled,
            r.mmio_base == 0,
            r.mmio_size == 0,
            r.csr_addrs@.len() == 0,
            r.queue.base_latency == 10,
            r.queue.bytes_per_cycle == 256,
            r.queue.queue_capacity == 8,
            r.queue.completions_per_cycle == 1,
            r.queue.warmup_latency == 0,
    {
        Self {
            enabled: false,
            mmio_base: 0,
            mmio_size: 0,
            csr_addrs: Vec::new(),
            queue: ServerConfig {
                base_latency: 10,
                bytes_per_cycle: 256,
                queue_capacity: 8,
                completions_per_cycle: 1,
                warmup_latency: 0,
            },
        }
    }
}

pub struct DmaQueue {
    queue: SimpleTimedQueue<()>,
    completed: u64,
    mmio_base: u64,
    mmio_size: u64,
    csr_addrs: Vec<u32>,
    bytes_issued: u64,
    bytes_completed: u64,
}

impl DmaQueue {
    pub closed spec fn queue_spec(&self) -> SimpleTimedQueue<()> {
        self.queue
    }

    pub closed spec fn completed_spec(&self) -> u64 {
        self.completed
    }

    pub closed spec fn bytes_issued_spec(&self) -> u64 {
        self.bytes_issued
    }

    pub closed spec fn bytes_completed_spec(&self) -> u64 {
        self.bytes_completed
    }

    pub closed spec fn mmio_base_spec(&self) -> u64 {
        self.mmio_base
    }

    pub closed spec fn mmio_size_spec(&self) -> u64 {
        self.mmio_size
    }

    pub closed spec fn csrs(&self) -> Seq<u32> {
        self.csr_addrs@
    }

    pub open spec fn wf(&self) -> bool {
        self.queue_spec().wf()
    }

    pub fn new(config: DmaConfig) -> (r: Self)
        requires
            config.queue.valid(),
        ensures
            r.wf(),
            r.queue_spec().enabled_spec() == config.enabled,
            r.queue_spec().server_spec().cfg() == config.queue,
            r.queue_spec().server_spec().fresh(config.queue),
            r.queue_spec().server_spec().pending().len() == 0,
            r.queue_spec().server_spec().done().len() == 0,
            r.queue_spec().server_spec().next_issue() == 0,
            r.queue_spec().server_spec().warmup() == config.queue.warmup_latency,
            r.completed_spec() == 0,
            r.bytes_issued_spec() == 0,
            r.bytes_completed_spec() == 0,
            r.mmio_base_spec() == config.mmio_base,
            r.mmio_size_spec() == config.mmio_size,
            r.csrs() == config.csr_addrs@,
    {
        Self {
            queue: SimpleTimedQueue::new(config.enabled, config.queue),
            completed: 0,
            mmio_base: config.mmio_base,
            mmio_size: config.mmio_size,
            csr_addrs: config.csr_addrs,
            bytes_issued: 0,
            bytes_completed: 0,
        }
    }

    /// Issue an operation of `bytes` bytes; accepted bytes are counted.
    pub fn try_issue(&mut self, now: Cycle, bytes: u32) -> (r: Result<Ticket, DmaReject>)
        requires
            old(self).wf(),
        ensures
            final(self).wf(),
            old(self).queue_spec().issue_post(
                &final(self).queue_spec(),
                now,
                (),
                bytes,
                SimpleTimedQueue::<()>::reject_view(r),
            ),
            final(self).bytes_issued_spec() == (if r is Ok {
                sat_add(old(self).bytes_issued_spec() as int, bytes as int)
            } else {
                old(self).bytes_issued_spec()
            }),
            final(self).completed_spec() == old(self).completed_spec(),
            final(self).bytes_completed_spec() == old(self).bytes_completed_spec(),
            final(self).mmio_base_spec() == old(self).mmio_base_spec(),
            final(self).mmio_size_spec() == old(self).mmio_size_spec(),
            final(self).csrs() == old(self).csrs(),
    {
        let res = self.queue.try_issue(now, (), bytes);
        match res {
            Ok(ticket) => {
                self.bytes_issued = self.bytes_issued.saturating_add(bytes as u64);
                Ok(ticket)
            },
            Err(err) => Err(Reject::new(err.retry_at, err.reason)),
        }
    }

    /// Retire the operations that complete at `now`, counting them and
    /// their bytes.
    pub fn tick(&mut self, now: Cycle)
        requires
            old(self).wf(),
        ensures
            final(self).wf(),
            final(self).queue_spec().enabled_spec() == old(self).queue_spec().enabled_spec(),
            old(self).queue_spec().enabled_spec() ==> old(self).queue_spec().server_spec().serviced(
                &final(self).queue_spec().server_spec(),
                now,
            ),
            !old(self).queue_spec().enabled_spec() ==> final(self).queue_spec() == old(self).queue_spec(),
            ({
                let s = old(self).queue_spec().server_spec();
                let drained: Seq<ServiceResult<()>> = if old(self).queue_spec().enabled_spec() {
                    s.done() + s.pending().take(s.moved_at(now) as int)
                } else {
                    Seq::empty()
                };
                &&& final(self).completed_spec() == sat_add(
                    old(self).completed_spec() as int,
                    drained.len() as int,
                )
                &&& final(self).bytes_completed_spec() == sat_add(
                    old(self).bytes_completed_spec() as int,
                    bytes_of(drained),
                )
            }),
            final(self).bytes_issued_spec() == old(self).bytes_issued_spec(),
            final(self).mmio_base_spec() == old(self).mmio_base_spec(),
            final(self).mmio_size_spec() == old(self).mmio_size_spec(),
            final(self).csrs() == old(self).csrs(),
    {
        let results = self.queue.tick_with_service_result(now);
        let ghost rs = results@;
        let ghost q1 = self.queue;
        proof {
            assert(rs.take(0) =~= Seq::<ServiceResult<()>>::empty());
        }
        let c0 = self.completed;
        let b0 = self.bytes_completed;
        let mut idx: usize = 0;
        while idx < results.len()
            invariant
                rs == results@,
                0 <= idx <= rs.len(),
                self.queue == q1,
                self.bytes_issued == old(self).bytes_issued,
                self.mmio_base == old(self).mmio_base,
                self.mmio_size == old(self).mmio_size,
                self.csr_addrs == old(self).csr_addrs,
                self.completed == sat_add(c0 as int, idx as int),
                self.bytes_completed == sat_add(b0 as int, bytes_of(rs.take(idx as int))),
            decreases rs.len() - idx,
        {
            proof {
                assert(rs.take(idx + 1) =~= rs.take(idx as int).push(rs[idx as int]));
                assert(rs.take(idx + 1).drop_last() =~= rs.take(idx as int));
                crate::timeq::lemma_bytes_nonneg(rs.take(idx as int));
            }
            let size = results[idx].ticket.size_bytes();
            self.completed = self.completed.saturating_add(1);
            self.bytes_completed = self.bytes_completed.saturating_add(size as u64);
            idx = idx + 1;
        }
        proof {
            assert(rs.take(rs.len() as int) =~= rs);
        }
    }

    pub fn bytes_issued(&self) -> (r: u64)
        ensures
            r == self.bytes_issued_spec(),
    {
        self.bytes_issued
    }

    pub fn bytes_completed(&self) -> (r: u64)
        ensures
            r == self.bytes_completed_spec(),
    {
        self.bytes_completed
    }

    pub fn is_busy(&self) -> (r: bool)
        requires
            self.wf(),
        ensures
            r == (self.queue_spec().enabled_spec() && self.queue_spec().server_spec().outstanding_spec()
                > 0),
    {
        self.queue.is_busy()
    }

    pub fn completed(&self) -> (r: u64)
        ensures
            r == self.completed_spec(),
    {
        self.completed
    }

    /// Whether `addr` falls in the enabled, non-empty MMIO window.
    pub fn matches_mmio(&self, addr: u64) -> (r: bool)
        ensures
            r == (self.queue_spec().enabled_spec() && self.mmio_size_spec() != 0 && self.mmio_base_spec()
                <= addr && (addr as int) < sat_add(
                self.mmio_base_spec() as int,
                self.mmio_size_spec() as int,
            )),
    {
        if !self.queue.is_enabled() || self.mmio_size == 0 {
            return false;
        }
        let end = self.mmio_base.saturating_add(self.mmio_size);
        addr >= self.mmio_base && addr < end
    }

    /// Whether `addr` is one of the CSR addresses (when enabled).
    pub fn matches_csr(&self, addr: u32) -> (r: bool)
        ensures
            r == (self.queue_spec().enabled_spec() && self.csrs().contains(addr)),
    {
        if !self.queue.is_enabled() {
            return false;
        }
        let mut i: usize = 0;
        while i < self.csr_addrs.len()
            invariant
                0 <= i <= self.csr_addrs@.len(),
                self.queue_spec().enabled_spec(),
                forall|j: int| 0 <= j < i ==> self.csr_addrs@[j] != addr,
            decreases self.csr_addrs@.len() - i,
        {
            if self.csr_addrs[i] == addr {
                assert(self.csr_addrs@[i as int] == addr);
                return true;
            }
            i = i + 1;
        }
        false
    }
}

} // verus!
