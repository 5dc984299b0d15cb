//! Execution units: one timed server per functional-unit kind.

use crate::timeq::{
    max_spec, Backpressure, Cycle, ServerConfig, ServiceRequest, ServiceResult, Ticket, TimedServer,
};
use vstd::prelude::*;

verus! {

#[derive(Debug, Clone, Copy)]
pub struct ExecutePipelineConfig {
    pub alu: ServerConfig,
    pub int_mul: ServerConfig,
    pub int_div: ServerConfig,
    pub fp: ServerConfig,
    pub sfu: ServerConfig,
}

impl ExecutePipelineConfig {
    pub open spec fn valid(self) -> bool {
        &&& self.alu.valid()
        &&& self.int_mul.valid()
        &&& self.int_div.valid()
        &&& self.fp.valid()
        &&& self.sfu.valid()
    }
}

pub open spec fn unit_config(base_latency: u64, bytes_per_cycle: u32, queue_capacity: usize) -> ServerConfig {
    ServerConfig {
        base_latency,
        bytes_per_cycle,
        queue_capacity,
        completions_per_cycle: 1,
        warmup_latency: 0,
    }
}

impl Default for ExecutePipelineConfig {
    fn default() -> (r: Self)
        ensures
            r.alu == unit_config(1, 16, 4),
            r.int_mul == unit_config(3, 16, 2),
            r.int_div == unit_config(16, 8, 2),
            r.fp == unit_config(4, 8, 4),
            r.sfu == unit_config(8, 16, 2),
            r.valid(),
    {
        Self {
            alu: ServerConfig {
                base_latency: 1,
                bytes_per_cycle: 16,
                queue_capacity: 4,
                completions_per_cycle: 1,
                warmup_latency: 0,
            },
            int_mul: ServerConfig {
                base_latency: 3,
                bytes_per_cycle: 16,
                queue_capacity: 2,
                completions_per_cycle: 1,
                warmup_latency: 0,
            },
            int_div: ServerConfig {
                base_latency: 16,
                bytes_per_cycle: 8,
                queue_capacity: 2,
                completions_per_cycle: 1,
                warmup_latency: 0,
            },
            fp: ServerConfig {
                base_latency: 4,
                bytes_per_cycle: 8,
                queue_capacity: 4,
                completions_per_cycle: 1,
                warmup_latency: 0,
            },
            sfu: ServerConfig {
                base_latency: 8,
                bytes_per_cycle: 16,
                queue_capacity: 2,
                completions_per_cycle: 1,
                warmup_latency: 0,
            },
        }
    }
}

#[derive(Debug, Clone, Copy, PartialEq, Eq, Structural)]
pub enum ExecUnitKind {
    Int,
    IntMul,
    IntDiv,
    Fp,
    Sfu,
}

pub struct ExecutePipeline {
    alu: TimedServer<()>,
    int_mul: TimedServer<()>,
    int_div: TimedServer<()>,
    fp: TimedServer<()>,
    sfu: TimedServer<()>,
}

/// Retry cycle suggested by a full unit: the ready cycle of its oldest
/// request, or else its next free cycle.
pub open spec fn full_retry_for(s: TimedServer<()>) -> Cycle {
    if s.pending().len() > 0 {
        s.pending()[0].ticket.ready()
    } else {
        max_spec(s.next_issue(), s.warmup())
    }
}

/// The retry cycle a unit suggests is when it can take work again.
/// - A unit with requests in flight names the first cycle at which one of
///   them completes: advanced to any earlier cycle it exposes nothing, and
///   advanced to that cycle (while it may still expose a completion then)
///   it exposes at least its oldest request.
/// - An empty unit names the first cycle from which a request starts at
///   once: from then on it is neither busy with earlier work nor warming
///   up, and before then it is one or the other.
pub proof fn lemma_full_retry_frees(s: TimedServer<()>, t: Cycle)
    requires
        s.wf(),
    ensures
        s.pending().len() > 0 && t < full_retry_for(s) ==> s.moved_at(t) == 0,
        s.pending().len() > 0 && s.budget_at(full_retry_for(s)) > 0 ==> s.moved_at(full_retry_for(s)) >= 1,
        s.outstanding_spec() == 0 ==> (t >= full_retry_for(s) <==> (s.start_at(t) == t && !s.is_warming(t))),
{
}

fn queue_full_retry(server: &TimedServer<()>) -> (r: Cycle)
    ensures
        r == full_retry_for(*server),
{
    match server.oldest_ticket() {
        Some(ticket) => ticket.ready_at(),
        None => server.available_at(),
    }
}

impl ExecutePipeline {
    /// The server that models unit `kind`.
    pub closed spec fn unit(&self, kind: ExecUnitKind) -> TimedServer<()> {
        match kind {
            ExecUnitKind::Int => self.alu,
            ExecUnitKind::IntMul => self.int_mul,
            ExecUnitKind::IntDiv => self.int_div,
            ExecUnitKind::Fp => self.fp,
            ExecUnitKind::Sfu => self.sfu,
        }
    }

    pub open spec fn wf(&self) -> bool {
        &&& self.unit(ExecUnitKind::Int).wf()
        &&& self.unit(ExecUnitKind::IntMul).wf()
        &&& self.unit(ExecUnitKind::IntDiv).wf()
        &&& self.unit(ExecUnitKind::Fp).wf()
        &&& self.unit(ExecUnitKind::Sfu).wf()
    }

    pub fn new(config: ExecutePipelineConfig) -> (r: Self)
        requires
            config.valid(),
        ensures
            r.wf(),
            r.unit(ExecUnitKind::Int).cfg() == config.alu,
            r.unit(ExecUnitKind::IntMul).cfg() == config.int_mul,
            r.unit(ExecUnitKind::IntDiv).cfg() == config.int_div,
            r.unit(ExecUnitKind::Fp).cfg() == config.fp,
            r.unit(ExecUnitKind::Sfu).cfg() == config.sfu,
            forall|k: ExecUnitKind| #[trigger] r.unit(k).outstanding_spec() == 0,
            forall|k: ExecUnitKind|
                {
                    let u = #[trigger] r.unit(k);
                    &&& u.pending().len() == 0
                    &&& u.done().len() == 0
                    &&& u.next_issue() == 0
                    &&& u.warmup() == u.cfg().warmup_latency
                    &&& u.last_cycle() == 0
                    &&& u.cycle_count() == 0
                    &&& u.stat().is_zero()
                    &&& u.fresh(u.cfg())
                },
    {
        Self {
            alu: TimedServer::new(config.alu),
            int_mul: TimedServer::new(config.int_mul),
            int_div: TimedServer::new(config.int_div),
            fp: TimedServer::new(config.fp),
            sfu: TimedServer::new(config.sfu),
        }
    }

    /// Retire the completions of every unit at `now`.
    pub fn tick(&mut self, now: Cycle)
        requires
            old(self).wf(),
        ensures
            final(self).wf(),
            forall|k: ExecUnitKind|
                {
                    let s = #[trigger] old(self).unit(k);
                    let p = final(self).unit(k);
                    &&& p.pending() == s.pending().skip(s.moved_at(now) as int)
                    &&& p.done().len() == 0
                    &&& p.cfg() == s.cfg()
                },
    {
        let _ = self.alu.service_ready(now);
        let _ = self.int_mul.service_ready(now);
        let _ = self.int_div.service_ready(now);
        let _ = self.fp.service_ready(now);
        let _ = self.sfu.service_ready(now);
    }

    /// Issue an operation on `active_lanes` lanes (at least one) to unit
    /// `kind`.
    pub fn issue(&mut self, now: Cycle, kind: ExecUnitKind, active_lanes: u32) -> (r: Result<
        Ticket,
        Backpressure<()>,
    >)
        requires
            old(self).wf(),
        ensures
            final(self).wf(),
            forall|k: ExecUnitKind| k != kind ==> #[trigger] final(self).unit(k) == old(self).unit(k),
            ({
                let s = old(self).unit(kind);
                let p = final(self).unit(kind);
                let size: u32 = if active_lanes >= 1 {
                    active_lanes
                } else {
                    1
                };
                &&& s.is_full() ==> (r matches Err(Backpressure::QueueFull { capacity, .. })
                    && capacity == s.cfg().queue_capacity && s.refused_full(&p))
                &&& !s.is_full() && s.is_warming(now) ==> (r matches Err(
                    Backpressure::Busy { available_at, .. },
                ) && available_at == s.warmup() && s.refused_busy(&p))
                &&& !s.is_full() && !s.is_warming(now) ==> (r matches Ok(t) && s.accepted(
                    &p,
                    now,
                    (),
                    size,
                    t,
                ))
            }),
    {
        let size_bytes = if active_lanes >= 1 {
            active_lanes
        } else {
            1
        };
        let request = ServiceRequest::new((), size_bytes);
        match kind {
            ExecUnitKind::Int => self.alu.try_enqueue(now, request),
            ExecUnitKind::IntMul => self.int_mul.try_enqueue(now, request),
            ExecUnitKind::IntDiv => self.int_div.try_enqueue(now, request),
            ExecUnitKind::Fp => self.fp.try_enqueue(now, request),
            ExecUnitKind::Sfu => self.sfu.try_enqueue(now, request),
        }
    }

    /// Whether unit `kind` holds any request.
    pub fn is_busy(&self, kind: ExecUnitKind) -> (r: bool)
        requires
            self.wf(),
        ensures
            r == (self.unit(kind).outstanding_spec() > 0),
    {
        match kind {
            ExecUnitKind::Int => self.alu.outstanding() > 0,
            ExecUnitKind::IntMul => self.int_mul.outstanding() > 0,
            ExecUnitKind::IntDiv => self.int_div.outstanding() > 0,
            ExecUnitKind::Fp => self.fp.outstanding() > 0,
            ExecUnitKind::Sfu => self.sfu.outstanding() > 0,
        }
    }

    /// Cycle at which unit `kind` is worth retrying.
    pub fn suggest_retry(&self, kind: ExecUnitKind) -> (r: Cycle)
        ensures
            r == full_retry_for(self.unit(kind)),
    {
        match kind {
            ExecUnitKind::Int => queue_full_retry(&self.alu),
            ExecUnitKind::IntMul => queue_full_retry(&self.int_mul),
            ExecUnitKind::IntDiv => queue_full_retry(&self.int_div),
            ExecUnitKind::Fp => queue_full_retry(&self.fp),
            ExecUnitKind::Sfu => queue_full_retry(&self.sfu),
        }
    }
}

} // verus!
