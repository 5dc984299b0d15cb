//! Load/store unit: per-warp global and shared load/store queues feeding a
//! single issue stage, with shared address and store/load data entries.

use crate::timeflow::gmem::request::{GmemRequest, GmemRequestKind};
use crate::timeflow::graph::{FlowGraph, Link, TimedNode};
use crate::timeflow::server_node::ServerNode;
use crate::timeflow::smem::SmemRequest;
use crate::timeflow::types::{indexed_name, NodeId, RejectReason, RejectWith};
use crate::timeq::{
    normalize_retry, normalize_retry_spec, sat_add, sat_sub, Backpressure, Cycle, ServerConfig, ServiceRequest,
    ServiceResult, Ticket, TimedServer,
};
use vstd::prelude::*;

pub use crate::timeflow::types::RejectReason as LsuRejectReason;

verus! {

pub type LsuReject = RejectWith<LsuPayload>;

#[derive(Debug, Clone)]
pub enum LsuPayload {
    Gmem(GmemRequest),
    Smem(SmemRequest),
}

/// Which per-warp queue a payload waits in.
#[derive(Debug, Clone, Copy, PartialEq, Eq, Structural)]
pub enum LsuQueueKind {
    GlobalLoad,
    GlobalStore,
    SharedLoad,
    SharedStore,
}

impl LsuPayload {
    pub open spec fn bytes_spec(&self) -> u32 {
        let b = match self {
            LsuPayload::Gmem(req) => req.bytes,
            LsuPayload::Smem(req) => req.bytes,
        };
        if b >= 1 {
            b
        } else {
            1
        }
    }

    pub open spec fn warp_spec(&self) -> usize {
        match self {
            LsuPayload::Gmem(req) => req.warp,
            LsuPayload::Smem(req) => req.warp,
        }
    }

    pub open spec fn kind_spec(&self) -> LsuQueueKind {
        match self {
            LsuPayload::Gmem(req) => if (req.kind == GmemRequestKind::Load || req.kind == GmemRequestKind::Store) && req.is_load {
                LsuQueueKind::GlobalLoad
            } else {
                LsuQueueKind::GlobalStore
            },
            LsuPayload::Smem(req) => if req.is_store {
                LsuQueueKind::SharedStore
            } else {
                LsuQueueKind::SharedLoad
            },
        }
    }

    /// Every access and every flush takes an address entry.
    pub open spec fn address_spec(&self) -> bool {
        true
    }

    pub open spec fn store_data_spec(&self) -> bool {
        match self {
            LsuPayload::Gmem(req) => (req.kind == GmemRequestKind::Load || req.kind == GmemRequestKind::Store) && !req.is_load,
            LsuPayload::Smem(req) => req.is_store,
        }
    }

    pub open spec fn load_data_spec(&self) -> bool {
        match self {
            LsuPayload::Gmem(req) => (req.kind == GmemRequestKind::Load || req.kind == GmemRequestKind::Store) && req.is_load,
            LsuPayload::Smem(req) => !req.is_store,
        }
    }

    /// Size that drives the queue's service time (at least one byte).
    pub fn bytes(&self) -> (r: u32)
        ensures
            r == self.bytes_spec(),
    {
        let b = match self {
            LsuPayload::Gmem(req) => req.bytes,
            LsuPayload::Smem(req) => req.bytes,
        };
        if b >= 1 {
            b
        } else {
            1
        }
    }

    pub fn warp(&self) -> (r: usize)
        ensures
            r == self.warp_spec(),
    {
        match self {
            LsuPayload::Gmem(req) => req.warp,
            LsuPayload::Smem(req) => req.warp,
        }
    }

    /// Global loads wait in the global load queue; stores and flushes in the
    /// global store queue; shared accesses in the shared queue of their
    /// direction.
    pub fn queue_kind(&self) -> (r: LsuQueueKind)
        ensures
            r == self.kind_spec(),
    {
        match self {
            LsuPayload::Gmem(req) => {
                if req.kind.is_mem() {
                    if req.is_load {
                        LsuQueueKind::GlobalLoad
                    } else {
                        LsuQueueKind::GlobalStore
                    }
                } else {
                    LsuQueueKind::GlobalStore
                }
            },
            LsuPayload::Smem(req) => {
                if req.is_store {
                    LsuQueueKind::SharedStore
                } else {
                    LsuQueueKind::SharedLoad
                }
            },
        }
    }

    pub fn needs_address(&self) -> (r: bool)
        ensures
            r == self.address_spec(),
    {
        match self {
            LsuPayload::Gmem(req) => req.kind.is_mem() || req.kind.is_flush_l0()
                || req.kind.is_flush_l1(),
            LsuPayload::Smem(_) => true,
        }
    }

    pub fn needs_store_data(&self) -> (r: bool)
        ensures
            r == self.store_data_spec(),
    {
        match self {
            LsuPayload::Gmem(req) => req.kind.is_mem() && !req.is_load,
            LsuPayload::Smem(req) => req.is_store,
        }
    }

    pub fn needs_load_data(&self) -> (r: bool)
        ensures
            r == self.load_data_spec(),
    {
        match self {
            LsuPayload::Gmem(req) => req.kind.is_mem() && req.is_load,
            LsuPayload::Smem(req) => !req.is_store,
        }
    }
}

#[derive(Debug, Clone, Copy)]
pub struct LsuStats {
    pub issued: u64,
    pub completed: u64,
    pub queue_full_rejects: u64,
    pub busy_rejects: u64,
    pub global_ldq_issued: u64,
    pub global_stq_issued: u64,
    pub shared_ldq_issued: u64,
    pub shared_stq_issued: u64,
    pub global_ldq_completed: u64,
    pub global_stq_completed: u64,
    pub shared_ldq_completed: u64,
    pub shared_stq_completed: u64,
    pub global_ldq_queue_full_rejects: u64,
    pub global_stq_queue_full_rejects: u64,
    pub shared_ldq_queue_full_rejects: u64,
    pub shared_stq_queue_full_rejects: u64,
    pub global_ldq_busy_rejects: u64,
    pub global_stq_busy_rejects: u64,
    pub shared_ldq_busy_rejects: u64,
    pub shared_stq_busy_rejects: u64,
}

impl LsuStats {
    pub open spec fn is_zero(self) -> bool {
        &&& self.issued == 0
        &&& self.completed == 0
        &&& self.queue_full_rejects == 0
        &&& self.busy_rejects == 0
        &&& self.global_ldq_issued == 0
        &&& self.global_stq_issued == 0
        &&& self.shared_ldq_issued == 0
        &&& self.shared_stq_issued == 0
        &&& self.global_ldq_completed == 0
        &&& self.global_stq_completed == 0
        &&& self.shared_ldq_completed == 0
        &&& self.shared_stq_completed == 0
        &&& self.global_ldq_queue_full_rejects == 0
        &&& self.global_stq_queue_full_rejects == 0
        &&& self.shared_ldq_queue_full_rejects == 0
        &&& self.shared_stq_queue_full_rejects == 0
        &&& self.global_ldq_busy_rejects == 0
        &&& self.global_stq_busy_rejects == 0
        &&& self.shared_ldq_busy_rejects == 0
        &&& self.shared_stq_busy_rejects == 0
    }

    /// Counters after one more issue from a queue of kind `k`.
    pub open spec fn after_issue(self, k: LsuQueueKind) -> LsuStats {
        let s = LsuStats { issued: sat_add(self.issued as int, 1), ..self };
        match k {
            LsuQueueKind::GlobalLoad => LsuStats {
                global_ldq_issued: sat_add(s.global_ldq_issued as int, 1),
                ..s
            },
            LsuQueueKind::GlobalStore => LsuStats {
                global_stq_issued: sat_add(s.global_stq_issued as int, 1),
                ..s
            },
            LsuQueueKind::SharedLoad => LsuStats {
                shared_ldq_issued: sat_add(s.shared_ldq_issued as int, 1),
                ..s
            },
            LsuQueueKind::SharedStore => LsuStats {
                shared_stq_issued: sat_add(s.shared_stq_issued as int, 1),
                ..s
            },
        }
    }

    /// Counters after one more completion from a queue of kind `k`.
    pub open spec fn after_completion(self, k: LsuQueueKind) -> LsuStats {
        let s = LsuStats { completed: sat_add(self.completed as int, 1), ..self };
        match k {
            LsuQueueKind::GlobalLoad => LsuStats {
                global_ldq_completed: sat_add(s.global_ldq_completed as int, 1),
                ..s
            },
            LsuQueueKind::GlobalStore => LsuStats {
                global_stq_completed: sat_add(s.global_stq_completed as int, 1),
                ..s
            },
            LsuQueueKind::SharedLoad => LsuStats {
                shared_ldq_completed: sat_add(s.shared_ldq_completed as int, 1),
                ..s
            },
            LsuQueueKind::SharedStore => LsuStats {
                shared_stq_completed: sat_add(s.shared_stq_completed as int, 1),
                ..s
            },
        }
    }

    /// Counters after one more queue-full refusal from a queue of kind `k`.
    pub open spec fn after_queue_full(self, k: LsuQueueKind) -> LsuStats {
        let s = LsuStats { queue_full_rejects: sat_add(self.queue_full_rejects as int, 1), ..self };
        match k {
            LsuQueueKind::GlobalLoad => LsuStats {
                global_ldq_queue_full_rejects: sat_add(s.global_ldq_queue_full_rejects as int, 1),
                ..s
            },
            LsuQueueKind::GlobalStore => LsuStats {
                global_stq_queue_full_rejects: sat_add(s.global_stq_queue_full_rejects as int, 1),
                ..s
            },
            LsuQueueKind::SharedLoad => LsuStats {
                shared_ldq_queue_full_rejects: sat_add(s.shared_ldq_queue_full_rejects as int, 1),
                ..s
            },
            LsuQueueKind::SharedStore => LsuStats {
                shared_stq_queue_full_rejects: sat_add(s.shared_stq_queue_full_rejects as int, 1),
                ..s
            },
        }
    }

    /// Counters after one more busy refusal from a queue of kind `k`.
    pub open spec fn after_busy(self, k: LsuQueueKind) -> LsuStats {
        let s = LsuStats { busy_rejects: sat_add(self.busy_rejects as int, 1), ..self };
        match k {
            LsuQueueKind::GlobalLoad => LsuStats {
                global_ldq_busy_rejects: sat_add(s.global_ldq_busy_rejects as int, 1),
                ..s
            },
            LsuQueueKind::GlobalStore => LsuStats {
                global_stq_busy_rejects: sat_add(s.global_stq_busy_rejects as int, 1),
                ..s
            },
            LsuQueueKind::SharedLoad => LsuStats {
                shared_ldq_busy_rejects: sat_add(s.shared_ldq_busy_rejects as int, 1),
                ..s
            },
            LsuQueueKind::SharedStore => LsuStats {
                shared_stq_busy_rejects: sat_add(s.shared_stq_busy_rejects as int, 1),
                ..s
            },
        }
    }

    /// Counters of `self` with those of `other` added, field by field.
    pub open spec fn plus(self, other: LsuStats) -> LsuStats {
        LsuStats {
            issued: sat_add(self.issued as int, other.issued as int),
            completed: sat_add(self.completed as int, other.completed as int),
            queue_full_rejects: sat_add(
                self.queue_full_rejects as int,
                other.queue_full_rejects as int,
            ),
            busy_rejects: sat_add(self.busy_rejects as int, other.busy_rejects as int),
            global_ldq_issued: sat_add(self.global_ldq_issued as int, other.global_ldq_issued as int),
            global_stq_issued: sat_add(self.global_stq_issued as int, other.global_stq_issued as int),
            shared_ldq_issued: sat_add(self.shared_ldq_issued as int, other.shared_ldq_issued as int),
            shared_stq_issued: sat_add(self.shared_stq_issued as int, other.shared_stq_issued as int),
            global_ldq_completed: sat_add(
                self.global_ldq_completed as int,
                other.global_ldq_completed as int,
            ),
            global_stq_completed: sat_add(
                self.global_stq_completed as int,
                other.global_stq_completed as int,
            ),
            shared_ldq_completed: sat_add(
                self.shared_ldq_completed as int,
                other.shared_ldq_completed as int,
            ),
            shared_stq_completed: sat_add(
                self.shared_stq_completed as int,
                other.shared_stq_completed as int,
            ),
            global_ldq_queue_full_rejects: sat_add(
                self.global_ldq_queue_full_rejects as int,
                other.global_ldq_queue_full_rejects as int,
            ),
            global_stq_queue_full_rejects: sat_add(
                self.global_stq_queue_full_rejects as int,
                other.global_stq_queue_full_rejects as int,
            ),
            shared_ldq_queue_full_rejects: sat_add(
                self.shared_ldq_queue_full_rejects as int,
                other.shared_ldq_queue_full_rejects as int,
            ),
            shared_stq_queue_full_rejects: sat_add(
                self.shared_stq_queue_full_rejects as int,
                other.shared_stq_queue_full_rejects as int,
            ),
            global_ldq_busy_rejects: sat_add(
                self.global_ldq_busy_rejects as int,
                other.global_ldq_busy_rejects as int,
            ),
            global_stq_busy_rejects: sat_add(
                self.global_stq_busy_rejects as int,
                other.global_stq_busy_rejects as int,
            ),
            shared_ldq_busy_rejects: sat_add(
                self.shared_ldq_busy_rejects as int,
                other.shared_ldq_busy_rejects as int,
            ),
            shared_stq_busy_rejects: sat_add(
                self.shared_stq_busy_rejects as int,
                other.shared_stq_busy_rejects as int,
            ),
        }
    }

    /// Add the counters of `other` into these.
    pub fn accumulate(&mut self, other: &LsuStats)
        ensures
            *final(self) == old(self).plus(*other),
    {
        self.issued = self.issued.saturating_add(other.issued);
        self.completed = self.completed.saturating_add(other.completed);
        self.queue_full_rejects = self.queue_full_rejects.saturating_add(other.queue_full_rejects);
        self.busy_rejects = self.busy_rejects.saturating_add(other.busy_rejects);
        self.global_ldq_issued = self.global_ldq_issued.saturating_add(other.global_ldq_issued);
        self.global_stq_issued = self.global_stq_issued.saturating_add(other.global_stq_issued);
        self.shared_ldq_issued = self.shared_ldq_issued.saturating_add(other.shared_ldq_issued);
        self.shared_stq_issued = self.shared_stq_issued.saturating_add(other.shared_stq_issued);
        self.global_ldq_completed = self.global_ldq_completed.saturating_add(
            other.global_ldq_completed,
        );
        self.global_stq_completed = self.global_stq_completed.saturating_add(
            other.global_stq_completed,
        );
        self.shared_ldq_completed = self.shared_ldq_completed.saturating_add(
            other.shared_ldq_completed,
        );
        self.shared_stq_completed = self.shared_stq_completed.saturating_add(
            other.shared_stq_completed,
        );
        self.global_ldq_queue_full_rejects = self.global_ldq_queue_full_rejects.saturating_add(
            other.global_ldq_queue_full_rejects,
        );
        self.global_stq_queue_full_rejects = self.global_stq_queue_full_rejects.saturating_add(
            other.global_stq_queue_full_rejects,
        );
        self.shared_ldq_queue_full_rejects = self.shared_ldq_queue_full_rejects.saturating_add(
            other.shared_ldq_queue_full_rejects,
        );
        self.shared_stq_queue_full_rejects = self.shared_stq_queue_full_rejects.saturating_add(
            other.shared_stq_queue_full_rejects,
        );
        self.global_ldq_busy_rejects = self.global_ldq_busy_rejects.saturating_add(
            other.global_ldq_busy_rejects,
        );
        self.global_stq_busy_rejects = self.global_stq_busy_rejects.saturating_add(
            other.global_stq_busy_rejects,
        );
        self.shared_ldq_busy_rejects = self.shared_ldq_busy_rejects.saturating_add(
            other.shared_ldq_busy_rejects,
        );
        self.shared_stq_busy_rejects = self.shared_stq_busy_rejects.saturating_add(
            other.shared_stq_busy_rejects,
        );
    }
}

impl Default for LsuStats {
    fn default() -> (r: Self)
        ensures
            r.is_zero(),
    {
        Self {
            issued: 0,
            completed: 0,
            queue_full_rejects: 0,
            busy_rejects: 0,
            global_ldq_issued: 0,
            global_stq_issued: 0,
            shared_ldq_issued: 0,
            shared_stq_issued: 0,
            global_ldq_completed: 0,
            global_stq_completed: 0,
            shared_ldq_completed: 0,
            shared_stq_completed: 0,
            global_ldq_queue_full_rejects: 0,
            global_stq_queue_full_rejects: 0,
            shared_ldq_queue_full_rejects: 0,
            shared_stq_queue_full_rejects: 0,
            global_ldq_busy_rejects: 0,
            global_stq_busy_rejects: 0,
            shared_ldq_busy_rejects: 0,
            shared_stq_busy_rejects: 0,
        }
    }
}

#[derive(Debug, Clone)]
pub struct LsuCompletion<T> {
    pub request: T,
    pub ticket_ready_at: Cycle,
    pub completed_at: Cycle,
}

#[derive(Debug, Clone)]
pub struct LsuIssue {
    pub ticket: Ticket,
}

#[derive(Debug, Clone, Copy)]
pub struct LsuQueueConfig {
    pub global_ldq: ServerConfig,
    pub global_stq: ServerConfig,
    pub shared_ldq: ServerConfig,
    pub shared_stq: ServerConfig,
}

/// A queue of `entries` entries that moves 1024 bytes per cycle with no
/// latency and exposes one completion per cycle.
pub open spec fn lsu_queue_spec(entries: usize) -> ServerConfig {
    ServerConfig {
        base_latency: 0,
        bytes_per_cycle: 1024,
        queue_capacity: entries,
        completions_per_cycle: 1,
        warmup_latency: 0,
    }
}

fn lsu_queue(entries: usize) -> (r: ServerConfig)
    ensures
        r == lsu_queue_spec(entries),
{
    ServerConfig {
        base_latency: 0,
        bytes_per_cycle: 1024,
        queue_capacity: entries,
        completions_per_cycle: 1,
        warmup_latency: 0,
    }
}

impl Default for LsuQueueConfig {
    fn default() -> (r: Self)
        ensures
            r.global_ldq == lsu_queue_spec(8),
            r.global_stq == lsu_queue_spec(4),
            r.shared_ldq == lsu_queue_spec(4),
            r.shared_stq == lsu_queue_spec(2),
    {
        Self {
            global_ldq: lsu_queue(8),
            global_stq: lsu_queue(4),
            shared_ldq: lsu_queue(4),
            shared_stq: lsu_queue(2),
        }
    }
}

#[derive(Debug, Clone, Copy)]
pub struct LsuResourceConfig {
    pub address_entries: usize,
    pub store_data_entries: usize,
    pub load_data_entries: usize,
}

impl Default for LsuResourceConfig {
    fn default() -> (r: Self)
        ensures
            r.address_entries == 16,
            r.store_data_entries == 8,
            r.load_data_entries == 16,
    {
        Self { address_entries: 16, store_data_entries: 8, load_data_entries: 16 }
    }
}

#[derive(Debug, Clone, Copy)]
pub struct LsuFlowConfig {
    pub queues: LsuQueueConfig,
    pub resources: LsuResourceConfig,
    pub issue: ServerConfig,
    pub link_capacity: usize,
}

impl LsuFlowConfig {
    /// The values that `default()` gives.
    pub open spec fn is_default(self) -> bool {
        &&& self.queues.global_ldq == lsu_queue_spec(8)
        &&& self.queues.global_stq == lsu_queue_spec(4)
        &&& self.queues.shared_ldq == lsu_queue_spec(4)
        &&& self.queues.shared_stq == lsu_queue_spec(2)
        &&& self.resources.address_entries == 16
        &&& self.resources.store_data_entries == 8
        &&& self.resources.load_data_entries == 16
        &&& self.issue == (ServerConfig {
            base_latency: 1,
            bytes_per_cycle: 1024,
            queue_capacity: 1,
            completions_per_cycle: 1,
            warmup_latency: 0,
        })
        &&& self.link_capacity == 4
    }
}

impl Default for LsuFlowConfig {
    fn default() -> (r: Self)
        ensures
            r.is_default(),
    {
        Self {
            queues: LsuQueueConfig::default(),
            resources: LsuResourceConfig::default(),
            issue: ServerConfig {
                base_latency: 1,
                bytes_per_cycle: 1024,
                queue_capacity: 1,
                completions_per_cycle: 1,
                warmup_latency: 0,
            },
            link_capacity: 4,
        }
    }
}

impl LsuFlowConfig {
    /// Every queue can be built and every link holds at least one entry.
    pub open spec fn valid(&self) -> bool {
        &&& self.queues.global_ldq.valid()
        &&& self.queues.global_stq.valid()
        &&& self.queues.shared_ldq.valid()
        &&& self.queues.shared_stq.valid()
        &&& self.issue.valid()
        &&& self.link_capacity > 0
    }
}

#[derive(Debug, Clone, Copy)]
struct WarpQueues {
    global_ldq: NodeId,
    global_stq: NodeId,
    shared_ldq: NodeId,
    shared_stq: NodeId,
}

/// The configuration of the queue of kind `k` of every warp.
pub open spec fn queue_config(c: LsuQueueConfig, k: LsuQueueKind) -> ServerConfig {
    match k {
        LsuQueueKind::GlobalLoad => c.global_ldq,
        LsuQueueKind::GlobalStore => c.global_stq,
        LsuQueueKind::SharedLoad => c.shared_ldq,
        LsuQueueKind::SharedStore => c.shared_stq,
    }
}

/// The server of node `n` holds nothing.
pub open spec fn idle_node(n: ServerNode<LsuPayload>) -> bool {
    n.server_spec().pending().len() == 0 && n.server_spec().done().len() == 0
}

/// No node of `g` holds anything.
pub open spec fn all_idle(g: FlowGraph<LsuPayload>) -> bool {
    forall|n: int| 0 <= n < g.node_count() ==> #[trigger] idle_node(g.node_at(n))
}

/// The node of the queue of kind `k` among a warp's queues.
spec fn queue_of(q: WarpQueues, k: LsuQueueKind) -> NodeId {
    match k {
        LsuQueueKind::GlobalLoad => q.global_ldq,
        LsuQueueKind::GlobalStore => q.global_stq,
        LsuQueueKind::SharedLoad => q.shared_ldq,
        LsuQueueKind::SharedStore => q.shared_stq,
    }
}

/// `s` with entry `w` moved one up (`inc`) or down, saturating; unchanged
/// when `w` is out of range.
pub open spec fn bumped(s: Seq<u32>, w: usize, inc: bool) -> Seq<u32> {
    if w < s.len() {
        s.update(
            w as int,
            if inc {
                sat_add32(s[w as int] as int, 1)
            } else {
                sat_sub32(s[w as int] as int, 1)
            },
        )
    } else {
        s
    }
}

/// `a - b` clamped at zero, as a `u32`.
pub open spec fn sat_sub32(a: int, b: int) -> u32 {
    if a - b < 0 {
        0
    } else if a - b > u32::MAX {
        u32::MAX
    } else {
        (a - b) as u32
    }
}

pub open spec fn sat_add32(a: int, b: int) -> u32 {
    crate::timeq::sat_add32(a, b)
}

pub struct LsuSubgraph {
    graph: FlowGraph<LsuPayload>,
    issue_node: NodeId,
    queues: Vec<WarpQueues>,
    store_pending_global: Vec<u32>,
    store_pending_shared: Vec<u32>,
    resources: LsuResourceConfig,
    address_in_use: usize,
    store_in_use: usize,
    load_in_use: usize,
    stats: LsuStats,
}

impl LsuPayload {
    /// `self` and `other` carry the same request.
    pub open spec fn same_as(&self, other: &LsuPayload) -> bool {
        match (self, other) {
            (LsuPayload::Gmem(a), LsuPayload::Gmem(b)) => a.same_as(&b),
            (LsuPayload::Smem(a), LsuPayload::Smem(b)) => a.same_as(&b),
            _ => false,
        }
    }

    /// A copy of this payload.
    pub fn duplicate(&self) -> (r: Self)
        ensures
            r.same_as(self),
    {
        match self {
            LsuPayload::Gmem(req) => LsuPayload::Gmem(req.duplicate()),
            LsuPayload::Smem(req) => LsuPayload::Smem(req.duplicate()),
        }
    }
}

/// `a + 1`, saturating.
pub open spec fn usize_inc(a: usize) -> usize {
    if a < usize::MAX {
        (a + 1) as usize
    } else {
        a
    }
}

/// `a - 1`, saturating at zero.
pub open spec fn usize_dec(a: usize) -> usize {
    if a > 0 {
        (a - 1) as usize
    } else {
        0
    }
}

impl LsuSubgraph {
    pub closed spec fn graph_spec(&self) -> FlowGraph<LsuPayload> {
        self.graph
    }

    pub closed spec fn issue_id(&self) -> NodeId {
        self.issue_node
    }

    pub closed spec fn warps(&self) -> nat {
        self.queues@.len()
    }

    /// Node of the queue of kind `k` of warp `w`.
    pub closed spec fn queue_id(&self, w: int, k: LsuQueueKind) -> NodeId {
        queue_of(self.queues@[w], k)
    }

    /// Stores in flight per warp, global and shared.
    pub closed spec fn pending_global(&self) -> Seq<u32> {
        self.store_pending_global@
    }

    pub closed spec fn pending_shared(&self) -> Seq<u32> {
        self.store_pending_shared@
    }

    pub closed spec fn res(&self) -> LsuResourceConfig {
        self.resources
    }

    pub closed spec fn address_used(&self) -> usize {
        self.address_in_use
    }

    pub closed spec fn store_used(&self) -> usize {
        self.store_in_use
    }

    pub closed spec fn load_used(&self) -> usize {
        self.load_in_use
    }

    pub closed spec fn stat(&self) -> LsuStats {
        self.stats
    }

    pub open spec fn wf(&self) -> bool {
        &&& self.graph_spec().wf()
        &&& self.issue_id() < self.graph_spec().node_count()
        &&& forall|w: int, k: LsuQueueKind|
            0 <= w < self.warps() ==> #[trigger] self.queue_id(w, k) < self.graph_spec().node_count()
        &&& self.pending_global().len() == self.warps()
        &&& self.pending_shared().len() == self.warps()
    }

    /// The structure and the configuration of `post` are those of `self`.
    pub open spec fn same_setup(&self, post: &Self) -> bool {
        &&& post.issue_id() == self.issue_id()
        &&& post.warps() == self.warps()
        &&& forall|w: int, k: LsuQueueKind| #[trigger] post.queue_id(w, k) == self.queue_id(w, k)
        &&& post.res() == self.res()
        &&& self.graph_spec().same_shape(&post.graph_spec())
    }

    /// A load of a warp waits while a store of the same warp and space is
    /// in flight.
    pub open spec fn blocked(&self, p: LsuPayload) -> bool {
        let w = p.warp_spec();
        match p.kind_spec() {
            LsuQueueKind::GlobalLoad => w < self.pending_global().len() && self.pending_global()[w as int] > 0,
            LsuQueueKind::SharedLoad => w < self.pending_shared().len() && self.pending_shared()[w as int] > 0,
            _ => false,
        }
    }

    /// The address and store-data entries that `p` needs are free.
    pub open spec fn has_room(&self, p: LsuPayload) -> bool {
        &&& !(p.address_spec() && self.address_used() >= self.res().address_entries)
        &&& !(p.store_data_spec() && self.store_used() >= self.res().store_data_entries)
    }

    /// Pending-store counters after a store of `p` is issued (`inc`) or
    /// completes.
    pub open spec fn global_after(&self, p: LsuPayload, inc: bool) -> Seq<u32> {
        if p.kind_spec() == LsuQueueKind::GlobalStore {
            bumped(self.pending_global(), p.warp_spec(), inc)
        } else {
            self.pending_global()
        }
    }

    pub open spec fn shared_after(&self, p: LsuPayload, inc: bool) -> Seq<u32> {
        if p.kind_spec() == LsuQueueKind::SharedStore {
            bumped(self.pending_shared(), p.warp_spec(), inc)
        } else {
            self.pending_shared()
        }
    }

    /// `post` and `r` are the outcome of offering `p` at `now`.
    pub open spec fn issued(&self, post: &Self, now: Cycle, p: LsuPayload, r: Result<LsuIssue, LsuReject>) -> bool {
        let retry_next = sat_add(now as int, 1);
        let k = p.kind_spec();
        let refused_here = |reason: RejectReason| r == Err::<LsuIssue, LsuReject>(
            RejectWith { retry_at: retry_next, reason, payload: p },
        ) && *post == *self;
        &&& post.wf()
        &&& self.same_setup(post)
        &&& self.blocked(p) ==> refused_here(RejectReason::Busy)
        &&& !self.blocked(p) && !self.has_room(p) ==> refused_here(RejectReason::QueueFull)
        &&& !self.blocked(p) && self.has_room(p) && p.warp_spec() >= self.warps() ==> refused_here(
            RejectReason::QueueFull,
        )
        &&& !self.blocked(p) && self.has_room(p) && p.warp_spec() < self.warps() ==> {
            let node = self.queue_id(p.warp_spec() as int, k) as int;
            let q = self.graph_spec().node_at(node).server_spec();
            let q2 = post.graph_spec().node_at(node).server_spec();
            &&& q.is_full() ==> (r matches Err(rej) && rej.reason == RejectReason::QueueFull && q.refused_full(&q2))
            &&& !q.is_full() && q.is_warming(now) ==> (r matches Err(rej) && rej.reason == RejectReason::Busy
                && rej.retry_at == normalize_retry_spec(now, q.warmup()) && q.refused_busy(&q2))
            &&& !q.is_full() && !q.is_warming(now) ==> (r matches Ok(i) && q.accepted(
                &q2,
                now,
                p,
                p.bytes_spec(),
                i.ticket,
            ))
            &&& r matches Ok(_) ==> {
                &&& post.stat() == self.stat().after_issue(k)
                &&& post.pending_global() == self.global_after(p, true)
                &&& post.pending_shared() == self.shared_after(p, true)
                &&& post.address_used() == (if p.address_spec() {
                    usize_inc(self.address_used())
                } else {
                    self.address_used()
                })
                &&& post.store_used() == (if p.store_data_spec() {
                    usize_inc(self.store_used())
                } else {
                    self.store_used()
                })
                &&& post.load_used() == self.load_used()
            }
            &&& r matches Err(rej) ==> {
                &&& rej.payload == p
                &&& post.pending_global() == self.pending_global()
                &&& post.pending_shared() == self.pending_shared()
                &&& post.address_used() == self.address_used()
                &&& post.store_used() == self.store_used()
                &&& post.load_used() == self.load_used()
                &&& rej.reason == RejectReason::Busy ==> post.stat() == self.stat().after_busy(k)
                    && rej.retry_at >= retry_next
                &&& rej.reason == RejectReason::QueueFull ==> post.stat()
                    == self.stat().after_queue_full(k) && rej.retry_at == retry_next
            }
        }
    }

    /// Every store, shared or global, holds a store-data entry while it is
    /// outstanding: offered while every store-data entry is in use it is
    /// refused as full and nothing changes; accepted, it takes one entry
    /// more. A load takes none.
    pub proof fn lemma_stores_hold_store_data(&self, post: &Self, now: Cycle, p: LsuPayload, r: Result<LsuIssue, LsuReject>)
        requires
            self.wf(),
            self.issued(post, now, p, r),
        ensures
            ({
                let store = match p {
                    LsuPayload::Smem(req) => req.is_store,
                    LsuPayload::Gmem(req) => (req.kind == GmemRequestKind::Load || req.kind == GmemRequestKind::Store)
                        && !req.is_load,
                };
                let load = match p {
                    LsuPayload::Smem(req) => !req.is_store,
                    LsuPayload::Gmem(req) => req.is_load,
                };
                &&& store && self.store_used() >= self.res().store_data_entries ==> (r matches Err(e) && e.reason
                    == RejectReason::QueueFull) && *post == *self
                &&& store && r is Ok ==> post.store_used() == usize_inc(self.store_used())
                &&& load ==> post.store_used() == self.store_used()
                &&& self.address_used() >= self.res().address_entries ==> r is Err && *post == *self
                &&& r is Ok ==> post.address_used() == usize_inc(self.address_used())
            }),
    {
    }

    /// A load waits while a store of the same warp and the same space is in
    /// flight: offered then, it is refused as busy and nothing changes; a
    /// store is never held back this way.
    pub proof fn lemma_loads_wait_for_stores(&self, post: &Self, now: Cycle, p: LsuPayload, r: Result<LsuIssue, LsuReject>)
        requires
            self.wf(),
            self.issued(post, now, p, r),
        ensures
            ({
                let w = p.warp_spec();
                &&& (match p {
                    LsuPayload::Gmem(req) => (req.kind == GmemRequestKind::Load || req.kind == GmemRequestKind::Store)
                        && req.is_load && w < self.pending_global().len() && self.pending_global()[w as int] > 0,
                    LsuPayload::Smem(req) => !req.is_store && w < self.pending_shared().len() && self.pending_shared()[w as int]
                        > 0,
                }) ==> (r matches Err(e) && e.reason == RejectReason::Busy) && *post == *self
                &&& (match p {
                    LsuPayload::Gmem(req) => !req.is_load,
                    LsuPayload::Smem(req) => req.is_store,
                }) ==> !self.blocked(p)
            }),
    {
    }

    proof fn lemma_keep_wf(&self, post: &Self)
        requires
            self.wf(),
            post.graph.wf(),
            post.graph.node_count() == self.graph.node_count(),
            post.queues == self.queues,
            post.issue_node == self.issue_node,
            post.store_pending_global@.len() == self.store_pending_global@.len(),
            post.store_pending_shared@.len() == self.store_pending_shared@.len(),
        ensures
            post.wf(),
    {
        assert forall|w: int, k: LsuQueueKind| 0 <= w < post.warps() implies #[trigger] post.queue_id(w, k)
            < post.graph_spec().node_count() by {
            assert(post.queue_id(w, k) == self.queue_id(w, k));
        }
    }

    /// The units of a load/store unit for `num_warps` warps: an issue stage
    /// fed, in this order, by every warp's shared load queue, shared store
    /// queue, global load queue and global store queue.
    pub fn new(config: LsuFlowConfig, num_warps: usize) -> (r: Self)
        requires
            config.valid(),
        ensures
            r.wf(),
            r.warps() == num_warps,
            r.res() == config.resources,
            r.address_used() == 0,
            r.store_used() == 0,
            r.load_used() == 0,
            r.stat().is_zero(),
            forall|w: int| 0 <= w < num_warps ==> #[trigger] r.pending_global()[w] == 0,
            forall|w: int| 0 <= w < num_warps ==> #[trigger] r.pending_shared()[w] == 0,
            all_idle(r.graph_spec()),
            r.graph_spec().node_at(r.issue_id() as int).server_spec().fresh(config.issue),
            forall|w: int, k: LsuQueueKind|
                0 <= w < num_warps ==> #[trigger] r.graph_spec().node_at(r.queue_id(w, k) as int).server_spec().fresh(
                    queue_config(config.queues, k),
                ),
    {
        let mut graph: FlowGraph<LsuPayload> = FlowGraph::new();
        let issue_node = graph.add_node(ServerNode::new("lsu_issue", TimedServer::new(config.issue)));
        proof {
            assert forall|n: int| 0 <= n < graph.node_count() implies #[trigger] idle_node(graph.node_at(n)) by {}
        }
        let mut queues: Vec<WarpQueues> = Vec::with_capacity(num_warps);
        let mut warp: usize = 0;
        while warp < num_warps
            invariant
                config.valid(),
                graph.wf(),
                warp <= num_warps,
                queues@.len() == warp,
                issue_node < graph.node_count(),
                forall|w: int| 0 <= w < warp ==> {
                    &&& (#[trigger] queues@[w]).global_ldq < graph.node_count()
                    &&& queues@[w].global_stq < graph.node_count()
                    &&& queues@[w].shared_ldq < graph.node_count()
                    &&& queues@[w].shared_stq < graph.node_count()
                },
                all_idle(graph),
                graph.node_at(issue_node as int).server_spec().fresh(config.issue),
                forall|w: int, k: LsuQueueKind|
                    0 <= w < warp ==> #[trigger] graph.node_at(queue_of(queues@[w], k) as int).server_spec().fresh(
                        queue_config(config.queues, k),
                    ),
            decreases num_warps - warp,
        {
            let ghost g0 = graph;
            let global_ldq = graph.add_node(ServerNode::new(
                indexed_name("lsu_global_ldq_w", warp, ""),
                TimedServer::new(config.queues.global_ldq),
            ));
            let global_stq = graph.add_node(ServerNode::new(
                indexed_name("lsu_global_stq_w", warp, ""),
                TimedServer::new(config.queues.global_stq),
            ));
            let shared_ldq = graph.add_node(ServerNode::new(
                indexed_name("lsu_shared_ldq_w", warp, ""),
                TimedServer::new(config.queues.shared_ldq),
            ));
            let shared_stq = graph.add_node(ServerNode::new(
                indexed_name("lsu_shared_stq_w", warp, ""),
                TimedServer::new(config.queues.shared_stq),
            ));
            proof {
                assert forall|n: int| 0 <= n < graph.node_count() implies #[trigger] idle_node(graph.node_at(n)) by {
                    if n < g0.node_count() {
                        assert(idle_node(g0.node_at(n)));
                    }
                }
            }
            let ghost q0 = queues@;
            queues.push(WarpQueues { global_ldq, global_stq, shared_ldq, shared_stq });
            proof {
                assert forall|w: int, k: LsuQueueKind|
                    0 <= w < warp + 1 implies #[trigger] graph.node_at(queue_of(queues@[w], k) as int).server_spec().fresh(
                    queue_config(config.queues, k),
                ) by {
                    if w < warp {
                        assert(queues@[w] == q0[w]);
                        assert(graph.node_at(queue_of(q0[w], k) as int) == g0.node_at(queue_of(q0[w], k) as int));
                    }
                }
            }
            warp = warp + 1;
        }
        let ghost g1 = graph;
        Self::connect_queues(&mut graph, &queues, issue_node, config.link_capacity, LsuQueueKind::SharedLoad);
        Self::connect_queues(&mut graph, &queues, issue_node, config.link_capacity, LsuQueueKind::SharedStore);
        Self::connect_queues(&mut graph, &queues, issue_node, config.link_capacity, LsuQueueKind::GlobalLoad);
        Self::connect_queues(&mut graph, &queues, issue_node, config.link_capacity, LsuQueueKind::GlobalStore);
        proof {
            assert forall|n: int| 0 <= n < graph.node_count() implies #[trigger] idle_node(graph.node_at(n)) by {
                assert(idle_node(g1.node_at(n)));
            }
            assert(graph.node_at(issue_node as int) == g1.node_at(issue_node as int));
            assert forall|w: int, k: LsuQueueKind|
                0 <= w < num_warps implies #[trigger] graph.node_at(queue_of(queues@[w], k) as int).server_spec().fresh(
                queue_config(config.queues, k),
            ) by {
                assert(graph.node_at(queue_of(queues@[w], k) as int) == g1.node_at(queue_of(queues@[w], k) as int));
            }
        }
        let mut store_pending_global: Vec<u32> = Vec::new();
        let mut store_pending_shared: Vec<u32> = Vec::new();
        let mut i: usize = 0;
        while i < num_warps
            invariant
                i <= num_warps,
                store_pending_global@.len() == i,
                store_pending_shared@.len() == i,
                forall|w: int| 0 <= w < i ==> #[trigger] store_pending_global@[w] == 0,
                forall|w: int| 0 <= w < i ==> #[trigger] store_pending_shared@[w] == 0,
            decreases num_warps - i,
        {
            store_pending_global.push(0);
            store_pending_shared.push(0);
            i = i + 1;
        }
        let r = Self {
            graph,
            issue_node,
            queues,
            store_pending_global,
            store_pending_shared,
            resources: config.resources,
            address_in_use: 0,
            store_in_use: 0,
            load_in_use: 0,
            stats: LsuStats::default(),
        };
        assert forall|w: int| 0 <= w < num_warps implies #[trigger] r.pending_global()[w] == 0 by {
            assert(r.pending_global()[w] == store_pending_global@[w]);
        }
        assert forall|w: int| 0 <= w < num_warps implies #[trigger] r.pending_shared()[w] == 0 by {
            assert(r.pending_shared()[w] == store_pending_shared@[w]);
        }
        r
    }

    /// Link the queue of kind `kind` of every warp to the issue node.
    #[verifier::spinoff_prover]
    fn connect_queues(
        graph: &mut FlowGraph<LsuPayload>,
        queues: &Vec<WarpQueues>,
        issue_node: NodeId,
        link_capacity: usize,
        kind: LsuQueueKind,
    )
        requires
            old(graph).wf(),
            link_capacity > 0,
            issue_node < old(graph).node_count(),
            forall|w: int| 0 <= w < queues@.len() ==> {
                &&& (#[trigger] queues@[w]).global_ldq < old(graph).node_count()
                &&& queues@[w].global_stq < old(graph).node_count()
                &&& queues@[w].shared_ldq < old(graph).node_count()
                &&& queues@[w].shared_stq < old(graph).node_count()
            },
        ensures
            final(graph).wf(),
            final(graph).node_count() == old(graph).node_count(),
            final(graph).edge_count() == old(graph).edge_count() + queues@.len(),
            old(graph).keeps_edges(final(graph), old(graph).edge_count()),
            old(graph).keeps_nodes(final(graph), old(graph).node_count()),
            forall|w: int|
                0 <= w < queues@.len() ==> #[trigger] final(graph).edge_src(old(graph).edge_count() + w)
                    == queue_of(queues@[w], kind) && final(graph).edge_dst(old(graph).edge_count() + w)
                    == issue_node,
    {
        let mut warp: usize = 0;
        while warp < queues.len()
            invariant
                graph.wf(),
                graph.node_count() == old(graph).node_count(),
                graph.edge_count() == old(graph).edge_count() + warp,
                old(graph).keeps_edges(graph, old(graph).edge_count()),
                old(graph).keeps_nodes(graph, old(graph).node_count()),
                forall|w: int|
                    0 <= w < warp ==> #[trigger] graph.edge_src(old(graph).edge_count() + w) == queue_of(
                        queues@[w],
                        kind,
                    ) && graph.edge_dst(old(graph).edge_count() + w) == issue_node,
                warp <= queues@.len(),
                link_capacity > 0,
                issue_node < graph.node_count(),
                forall|w: int| 0 <= w < queues@.len() ==> {
                    &&& (#[trigger] queues@[w]).global_ldq < graph.node_count()
                    &&& queues@[w].global_stq < graph.node_count()
                    &&& queues@[w].shared_ldq < graph.node_count()
                    &&& queues@[w].shared_stq < graph.node_count()
                },
            decreases queues@.len() - warp,
        {
            let q = queues[warp];
            let (src, prefix): (NodeId, &str) = match kind {
                LsuQueueKind::SharedLoad => (q.shared_ldq, "lsu_shared_ldq_w"),
                LsuQueueKind::SharedStore => (q.shared_stq, "lsu_shared_stq_w"),
                LsuQueueKind::GlobalLoad => (q.global_ldq, "lsu_global_ldq_w"),
                LsuQueueKind::GlobalStore => (q.global_stq, "lsu_global_stq_w"),
            };
            let ghost g0 = *graph;
            graph.connect(src, issue_node, indexed_name(prefix, warp, "->issue"), Link::new(link_capacity));
            proof {
                assert forall|e: int|
                    #![trigger graph.edge_src(e)]
                    #![trigger graph.edge_dst(e)]
                    #![trigger graph.edge_output(e)]
                    #![trigger graph.edge_stat(e)]
                    0 <= e < old(graph).edge_count() implies graph.edge_src(e) == old(graph).edge_src(e)
                    && graph.edge_dst(e) == old(graph).edge_dst(e) && graph.edge_output(e) == old(
                    graph,
                ).edge_output(e) && graph.edge_stat(e) == old(graph).edge_stat(e) by {
                    assert(g0.edge_src(e) == old(graph).edge_src(e));
                    assert(g0.edge_dst(e) == old(graph).edge_dst(e));
                    assert(g0.edge_output(e) == old(graph).edge_output(e));
                    assert(g0.edge_stat(e) == old(graph).edge_stat(e));
                    assert(graph.edge_src(e) == g0.edge_src(e));
                    assert(graph.edge_dst(e) == g0.edge_dst(e));
                    assert(graph.edge_output(e) == g0.edge_output(e));
                    assert(graph.edge_stat(e) == g0.edge_stat(e));
                }
                assert forall|n: int|
                    #![trigger graph.node_label(n)]
                    #![trigger graph.node_at(n)]
                    0 <= n < old(graph).node_count() implies graph.node_label(n) == old(graph).node_label(n)
                    && graph.node_at(n) == old(graph).node_at(n) by {
                    assert(g0.node_label(n) == old(graph).node_label(n));
                    assert(g0.node_at(n) == old(graph).node_at(n));
                    assert(graph.node_label(n) == g0.node_label(n));
                    assert(graph.node_at(n) == g0.node_at(n));
                }
                assert forall|w: int| 0 <= w < warp + 1 implies #[trigger] graph.edge_src(
                    old(graph).edge_count() + w,
                ) == queue_of(queues@[w], kind) && graph.edge_dst(old(graph).edge_count() + w)
                    == issue_node by {
                    if w < warp {
                        assert(g0.edge_src(old(graph).edge_count() + w) == queue_of(queues@[w], kind));
                        assert(graph.edge_src(old(graph).edge_count() + w) == g0.edge_src(
                            old(graph).edge_count() + w,
                        ));
                        assert(graph.edge_dst(old(graph).edge_count() + w) == g0.edge_dst(
                            old(graph).edge_count() + w,
                        ));
                    }
                }
            }
            warp = warp + 1;
        }
    }

    fn queue_node(&self, warp: usize, kind: LsuQueueKind) -> (r: Option<NodeId>)
        ensures
            warp >= self.warps() ==> r is None,
            warp < self.warps() ==> r == Some(self.queue_id(warp as int, kind)),
    {
        if warp >= self.queues.len() {
            return None;
        }
        let q = self.queues[warp];
        Some(
            match kind {
                LsuQueueKind::GlobalLoad => q.global_ldq,
                LsuQueueKind::GlobalStore => q.global_stq,
                LsuQueueKind::SharedLoad => q.shared_ldq,
                LsuQueueKind::SharedStore => q.shared_stq,
            },
        )
    }

    fn load_blocked_by_store(&self, payload: &LsuPayload) -> (r: bool)
        ensures
            r == self.blocked(*payload),
    {
        let warp = payload.warp();
        match payload.queue_kind() {
            LsuQueueKind::GlobalLoad => warp < self.store_pending_global.len()
                && self.store_pending_global[warp] > 0,
            LsuQueueKind::SharedLoad => warp < self.store_pending_shared.len()
                && self.store_pending_shared[warp] > 0,
            _ => false,
        }
    }

    fn can_reserve(&self, payload: &LsuPayload) -> (r: bool)
        ensures
            r == self.has_room(*payload),
    {
        if payload.needs_address() && self.address_in_use >= self.resources.address_entries {
            return false;
        }
        if payload.needs_store_data() && self.store_in_use >= self.resources.store_data_entries {
            return false;
        }
        true
    }

    fn bump_store_pending(&mut self, warp: usize, kind: LsuQueueKind, increment: bool)
        ensures
            final(self).pending_global() == (if kind == LsuQueueKind::GlobalStore {
                bumped(old(self).pending_global(), warp, increment)
            } else {
                old(self).pending_global()
            }),
            final(self).pending_shared() == (if kind == LsuQueueKind::SharedStore {
                bumped(old(self).pending_shared(), warp, increment)
            } else {
                old(self).pending_shared()
            }),
            final(self).graph == old(self).graph,
            final(self).queues == old(self).queues,
            final(self).issue_node == old(self).issue_node,
            final(self).resources == old(self).resources,
            final(self).address_in_use == old(self).address_in_use,
            final(self).store_in_use == old(self).store_in_use,
            final(self).load_in_use == old(self).load_in_use,
            final(self).stats == old(self).stats,
    {
        match kind {
            LsuQueueKind::GlobalStore => {
                if warp < self.store_pending_global.len() {
                    let v = self.store_pending_global[warp];
                    let nv = if increment {
                        v.saturating_add(1)
                    } else {
                        v.saturating_sub(1)
                    };
                    self.store_pending_global.set(warp, nv);
                }
            },
            LsuQueueKind::SharedStore => {
                if warp < self.store_pending_shared.len() {
                    let v = self.store_pending_shared[warp];
                    let nv = if increment {
                        v.saturating_add(1)
                    } else {
                        v.saturating_sub(1)
                    };
                    self.store_pending_shared.set(warp, nv);
                }
            },
            _ => {},
        }
    }

    fn record_issued(&mut self, kind: LsuQueueKind)
        ensures
            final(self).stats == old(self).stats.after_issue(kind),
            final(self).graph == old(self).graph,
            final(self).queues == old(self).queues,
            final(self).issue_node == old(self).issue_node,
            final(self).resources == old(self).resources,
            final(self).address_in_use == old(self).address_in_use,
            final(self).store_in_use == old(self).store_in_use,
            final(self).load_in_use == old(self).load_in_use,
            final(self).store_pending_global == old(self).store_pending_global,
            final(self).store_pending_shared == old(self).store_pending_shared,
    {
        self.stats.issued = self.stats.issued.saturating_add(1);
        match kind {
            LsuQueueKind::GlobalLoad => {
                self.stats.global_ldq_issued = self.stats.global_ldq_issued.saturating_add(1)
            },
            LsuQueueKind::GlobalStore => {
                self.stats.global_stq_issued = self.stats.global_stq_issued.saturating_add(1)
            },
            LsuQueueKind::SharedLoad => {
                self.stats.shared_ldq_issued = self.stats.shared_ldq_issued.saturating_add(1)
            },
            LsuQueueKind::SharedStore => {
                self.stats.shared_stq_issued = self.stats.shared_stq_issued.saturating_add(1)
            },
        }
    }

    fn record_completed(&mut self, kind: LsuQueueKind)
        ensures
            final(self).stats == old(self).stats.after_completion(kind),
            final(self).graph == old(self).graph,
            final(self).queues == old(self).queues,
            final(self).issue_node == old(self).issue_node,
            final(self).resources == old(self).resources,
            final(self).address_in_use == old(self).address_in_use,
            final(self).store_in_use == old(self).store_in_use,
            final(self).load_in_use == old(self).load_in_use,
            final(self).store_pending_global == old(self).store_pending_global,
            final(self).store_pending_shared == old(self).store_pending_shared,
    {
        self.stats.completed = self.stats.completed.saturating_add(1);
        match kind {
            LsuQueueKind::GlobalLoad => {
                self.stats.global_ldq_completed = self.stats.global_ldq_completed.saturating_add(1)
            },
            LsuQueueKind::GlobalStore => {
                self.stats.global_stq_completed = self.stats.global_stq_completed.saturating_add(1)
            },
            LsuQueueKind::SharedLoad => {
                self.stats.shared_ldq_completed = self.stats.shared_ldq_completed.saturating_add(1)
            },
            LsuQueueKind::SharedStore => {
                self.stats.shared_stq_completed = self.stats.shared_stq_completed.saturating_add(1)
            },
        }
    }

    fn record_queue_full_reject(&mut self, kind: LsuQueueKind)
        ensures
            final(self).stats == old(self).stats.after_queue_full(kind),
            final(self).graph == old(self).graph,
            final(self).queues == old(self).queues,
            final(self).issue_node == old(self).issue_node,
            final(self).resources == old(self).resources,
            final(self).address_in_use == old(self).address_in_use,
            final(self).store_in_use == old(self).store_in_use,
            final(self).load_in_use == old(self).load_in_use,
            final(self).store_pending_global == old(self).store_pending_global,
            final(self).store_pending_shared == old(self).store_pending_shared,
    {
        self.stats.queue_full_rejects = self.stats.queue_full_rejects.saturating_add(1);
        match kind {
            LsuQueueKind::GlobalLoad => {
                self.stats.global_ldq_queue_full_rejects =
                    self.stats.global_ldq_queue_full_rejects.saturating_add(1)
            },
            LsuQueueKind::GlobalStore => {
                self.stats.global_stq_queue_full_rejects =
                    self.stats.global_stq_queue_full_rejects.saturating_add(1)
            },
            LsuQueueKind::SharedLoad => {
                self.stats.shared_ldq_queue_full_rejects =
                    self.stats.shared_ldq_queue_full_rejects.saturating_add(1)
            },
            LsuQueueKind::SharedStore => {
                self.stats.shared_stq_queue_full_rejects =
                    self.stats.shared_stq_queue_full_rejects.saturating_add(1)
            },
        }
    }

    fn record_busy_reject(&mut self, kind: LsuQueueKind)
        ensures
            final(self).stats == old(self).stats.after_busy(kind),
            final(self).graph == old(self).graph,
            final(self).queues == old(self).queues,
            final(self).issue_node == old(self).issue_node,
            final(self).resources == old(self).resources,
            final(self).address_in_use == old(self).address_in_use,
            final(self).store_in_use == old(self).store_in_use,
            final(self).load_in_use == old(self).load_in_use,
            final(self).store_pending_global == old(self).store_pending_global,
            final(self).store_pending_shared == old(self).store_pending_shared,
    {
        self.stats.busy_rejects = self.stats.busy_rejects.saturating_add(1);
        match kind {
            LsuQueueKind::GlobalLoad => {
                self.stats.global_ldq_busy_rejects = self.stats.global_ldq_busy_rejects.saturating_add(1)
            },
            LsuQueueKind::GlobalStore => {
                self.stats.global_stq_busy_rejects = self.stats.global_stq_busy_rejects.saturating_add(1)
            },
            LsuQueueKind::SharedLoad => {
                self.stats.shared_ldq_busy_rejects = self.stats.shared_ldq_busy_rejects.saturating_add(1)
            },
            LsuQueueKind::SharedStore => {
                self.stats.shared_stq_busy_rejects = self.stats.shared_stq_busy_rejects.saturating_add(1)
            },
        }
    }

    /// Offer a payload to the queue of its warp and kind. Refused at once,
    /// retrying next cycle, when it is a load behind a pending store of the
    /// same warp and space (busy), when its address or store-data entry is
    /// not free, or when its warp has no queues (queue full); otherwise the
    /// queue decides, and an accepted payload takes its entries.
    pub fn issue_payload(&mut self, now: Cycle, payload: LsuPayload) -> (r: Result<LsuIssue, LsuReject>)
        requires
            old(self).wf(),
        ensures
            old(self).issued(final(self), now, payload, r),
    {
        let ghost p = payload;
        let retry_next = now.saturating_add(1);
        let kind = payload.queue_kind();
        if self.load_blocked_by_store(&payload) {
            return Err(LsuReject::new(payload, retry_next, RejectReason::Busy));
        }
        if !self.can_reserve(&payload) {
            return Err(LsuReject::new(payload, retry_next, RejectReason::QueueFull));
        }
        let warp = payload.warp();
        let node_id = match self.queue_node(warp, kind) {
            Some(node) => node,
            None => {
                return Err(LsuReject::new(payload, retry_next, RejectReason::QueueFull));
            },
        };
        let needs_address = payload.needs_address();
        let needs_store_data = payload.needs_store_data();
        let size_bytes = payload.bytes();
        let service_req = ServiceRequest::new(payload, size_bytes);
        let ghost pre = *self;
        let put = self.graph.try_put(node_id, now, service_req);
        let ghost mid = *self;
        proof {
            pre.lemma_keep_wf(&mid);
        }
        let r = match put {
            Ok(ticket) => {
                self.record_issued(kind);
                self.bump_store_pending(warp, kind, true);
                if needs_address {
                    self.address_in_use = self.address_in_use.saturating_add(1);
                }
                if needs_store_data {
                    self.store_in_use = self.store_in_use.saturating_add(1);
                }
                Ok(LsuIssue { ticket })
            },
            Err(bp) => match bp {
                Backpressure::Busy { request, available_at } => {
                    self.record_busy_reject(kind);
                    let retry_at = normalize_retry(now, available_at);
                    Err(LsuReject::new(request.payload, retry_at, RejectReason::Busy))
                },
                Backpressure::QueueFull { request, .. } => {
                    self.record_queue_full_reject(kind);
                    Err(LsuReject::new(request.payload, retry_next, RejectReason::QueueFull))
                },
            },
        };
        proof {
            mid.lemma_keep_wf(self);
            assert(pre.same_setup(self));
        }
        r
    }

    pub fn issue_gmem(&mut self, now: Cycle, request: GmemRequest) -> (r: Result<LsuIssue, LsuReject>)
        requires
            old(self).wf(),
        ensures
            old(self).issued(final(self), now, LsuPayload::Gmem(request), r),
    {
        self.issue_payload(now, LsuPayload::Gmem(request))
    }

    pub fn issue_smem(&mut self, now: Cycle, request: SmemRequest) -> (r: Result<LsuIssue, LsuReject>)
        requires
            old(self).wf(),
        ensures
            old(self).issued(final(self), now, LsuPayload::Smem(request), r),
    {
        self.issue_payload(now, LsuPayload::Smem(request))
    }

    /// Advance the queues and move ready payloads towards the issue stage.
    pub fn tick(&mut self, now: Cycle)
        requires
            old(self).wf(),
        ensures
            final(self).wf(),
            old(self).same_setup(final(self)),
            final(self).pending_global() == old(self).pending_global(),
            final(self).pending_shared() == old(self).pending_shared(),
            final(self).address_used() == old(self).address_used(),
            final(self).store_used() == old(self).store_used(),
            final(self).load_used() == old(self).load_used(),
            final(self).stat() == old(self).stat(),
            forall|e: int|
                0 <= e < old(self).graph_spec().edge_count() ==> old(self).graph_spec().edge_stat(e).grows_to(
                    #[trigger] final(self).graph_spec().edge_stat(e),
                ),
            forall|e: int|
                0 <= e < old(self).graph_spec().edge_count() ==> #[trigger] final(self).graph_spec().link_settled(
                    e,
                    now,
                ),
            forall|e: int|
                0 <= e < old(self).graph_spec().edge_count() ==> #[trigger] old(self).graph_spec().link_moved_some(
                    &final(self).graph_spec(),
                    e,
                ),
    {
        let ghost pre = *self;
        self.graph.tick(now);
        proof {
            pre.lemma_keep_wf(self);
        }
    }

    pub fn stats(&self) -> (r: LsuStats)
        ensures
            r == self.stat(),
    {
        self.stats
    }

    /// Reset the counters and free every address and data entry.
    pub fn clear_stats(&mut self)
        requires
            old(self).wf(),
        ensures
            final(self).wf(),
            old(self).same_setup(final(self)),
            final(self).graph_spec() == old(self).graph_spec(),
            final(self).pending_global() == old(self).pending_global(),
            final(self).pending_shared() == old(self).pending_shared(),
            final(self).stat().is_zero(),
            final(self).address_used() == 0,
            final(self).store_used() == 0,
            final(self).load_used() == 0,
    {
        let ghost pre = *self;
        self.stats = LsuStats::default();
        self.address_in_use = 0;
        self.store_in_use = 0;
        self.load_in_use = 0;
        proof {
            pre.lemma_keep_wf(self);
        }
    }

    /// Free the address and store-data entries that `payload` took.
    pub fn release_issue_resources(&mut self, payload: &LsuPayload)
        requires
            old(self).wf(),
        ensures
            final(self).wf(),
            old(self).same_setup(final(self)),
            final(self).graph_spec() == old(self).graph_spec(),
            final(self).pending_global() == old(self).pending_global(),
            final(self).pending_shared() == old(self).pending_shared(),
            final(self).stat() == old(self).stat(),
            final(self).load_used() == old(self).load_used(),
            final(self).address_used() == (if payload.address_spec() {
                usize_dec(old(self).address_used())
            } else {
                old(self).address_used()
            }),
            final(self).store_used() == (if payload.store_data_spec() {
                usize_dec(old(self).store_used())
            } else {
                old(self).store_used()
            }),
    {
        let ghost pre = *self;
        if payload.needs_address() {
            self.address_in_use = self.address_in_use.saturating_sub(1);
        }
        if payload.needs_store_data() {
            self.store_in_use = self.store_in_use.saturating_sub(1);
        }
        proof {
            pre.lemma_keep_wf(self);
        }
    }

    /// Take a load-data entry for `payload` if it needs one: `false` when
    /// none is free.
    pub fn reserve_load_data(&mut self, payload: &LsuPayload) -> (r: bool)
        requires
            old(self).wf(),
        ensures
            final(self).wf(),
            old(self).same_setup(final(self)),
            final(self).graph_spec() == old(self).graph_spec(),
            final(self).pending_global() == old(self).pending_global(),
            final(self).pending_shared() == old(self).pending_shared(),
            final(self).stat() == old(self).stat(),
            final(self).address_used() == old(self).address_used(),
            final(self).store_used() == old(self).store_used(),
            !payload.load_data_spec() ==> r && final(self).load_used() == old(self).load_used(),
            payload.load_data_spec() ==> r == (old(self).load_used() < old(self).res().load_data_entries),
            payload.load_data_spec() && r ==> final(self).load_used() == old(self).load_used() + 1,
            payload.load_data_spec() && !r ==> final(self).load_used() == old(self).load_used(),
    {
        if !payload.needs_load_data() {
            return true;
        }
        if self.load_in_use >= self.resources.load_data_entries {
            return false;
        }
        let ghost pre = *self;
        self.load_in_use = self.load_in_use + 1;
        proof {
            pre.lemma_keep_wf(self);
        }
        true
    }

    pub fn release_load_data(&mut self, payload: &LsuPayload)
        requires
            old(self).wf(),
        ensures
            final(self).wf(),
            old(self).same_setup(final(self)),
            final(self).graph_spec() == old(self).graph_spec(),
            final(self).pending_global() == old(self).pending_global(),
            final(self).pending_shared() == old(self).pending_shared(),
            final(self).stat() == old(self).stat(),
            final(self).address_used() == old(self).address_used(),
            final(self).store_used() == old(self).store_used(),
            final(self).load_used() == (if payload.load_data_spec() {
                usize_dec(old(self).load_used())
            } else {
                old(self).load_used()
            }),
    {
        let ghost pre = *self;
        if payload.needs_load_data() {
            self.load_in_use = self.load_in_use.saturating_sub(1);
        }
        proof {
            pre.lemma_keep_wf(self);
        }
    }

    pub fn can_reserve_load_data(&self, payload: &LsuPayload) -> (r: bool)
        ensures
            r == (!payload.load_data_spec() || self.load_used() < self.res().load_data_entries),
    {
        if !payload.needs_load_data() {
            return true;
        }
        self.load_in_use < self.resources.load_data_entries
    }

    /// The payload that the issue stage would hand out at `now`.
    pub fn peek_ready(&mut self, now: Cycle) -> (r: Option<LsuPayload>)
        requires
            old(self).wf(),
        ensures
            final(self).wf(),
            old(self).same_setup(final(self)),
            final(self).pending_global() == old(self).pending_global(),
            final(self).pending_shared() == old(self).pending_shared(),
            final(self).address_used() == old(self).address_used(),
            final(self).store_used() == old(self).store_used(),
            final(self).load_used() == old(self).load_used(),
            final(self).stat() == old(self).stat(),
            ({
                let nr = old(self).graph_spec().node_at(old(self).issue_id() as int).next_ready(now);
                &&& nr is None ==> r is None
                &&& nr matches Some(x) ==> (r matches Some(p) && p.same_as(&x.payload))
            }),
            final(self).graph_spec().node_at(old(self).issue_id() as int).next_ready(now) == old(
                self,
            ).graph_spec().node_at(old(self).issue_id() as int).next_ready(now),
    {
        let ghost pre = *self;
        let node = self.graph.node_mut(self.issue_node);
        let r = match node.peek_ready(now) {
            Some(result) => Some(result.payload.duplicate()),
            None => None,
        };
        proof {
            pre.lemma_keep_wf(self);
        }
        r
    }

    /// Called with cycles that never go back (`now` no earlier than any
    /// cycle the issue node was advanced to), the next completion handed
    /// out is ready by `now`.
    pub proof fn lemma_taken_ready_by_now(&self, now: Cycle)
        requires
            self.wf(),
            self.graph_spec().node_at(self.issue_id() as int).server_spec().seen_cycle() <= now,
        ensures
            self.graph_spec().node_at(self.issue_id() as int).next_ready(now) matches Some(x) ==> x.ticket.ready() <= now,
    {
        let node = self.graph_spec().node_at(self.issue_id() as int);
        self.graph_spec().lemma_node_inv(self.issue_id() as int);
        node.server_spec().lemma_ready_by_now(now);
    }

    /// Hand out the payload that leaves the issue stage at `now`, if any;
    /// a completed store no longer blocks loads of its warp.
    pub fn take_ready(&mut self, now: Cycle) -> (r: Option<LsuCompletion<LsuPayload>>)
        requires
            old(self).wf(),
        ensures
            final(self).wf(),
            old(self).same_setup(final(self)),
            final(self).address_used() == old(self).address_used(),
            final(self).store_used() == old(self).store_used(),
            final(self).load_used() == old(self).load_used(),
            ({
                let nr = old(self).graph_spec().node_at(old(self).issue_id() as int).next_ready(now);
                &&& nr is None ==> r is None && final(self).stat() == old(self).stat()
                    && final(self).pending_global() == old(self).pending_global()
                    && final(self).pending_shared() == old(self).pending_shared()
                &&& nr matches Some(x) ==> {
                    &&& r == Some(LsuCompletion {
                        request: x.payload,
                        ticket_ready_at: x.ticket.ready(),
                        completed_at: now,
                    })
                    &&& final(self).stat() == old(self).stat().after_completion(x.payload.kind_spec())
                    &&& final(self).pending_global() == old(self).global_after(x.payload, false)
                    &&& final(self).pending_shared() == old(self).shared_after(x.payload, false)
                }
            }),
    {
        let ghost pre = *self;
        let node = self.graph.node_mut(self.issue_node);
        let result = node.take_ready(now);
        proof {
            pre.lemma_keep_wf(self);
        }
        match result {
            Some(result) => {
                let kind = result.payload.queue_kind();
                let warp = result.payload.warp();
                let ghost mid = *self;
                self.record_completed(kind);
                self.bump_store_pending(warp, kind, false);
                proof {
                    mid.lemma_keep_wf(self);
                }
                let ready_at = result.ticket.ready_at();
                Some(LsuCompletion { request: result.payload, ticket_ready_at: ready_at, completed_at: now })
            },
            None => None,
        }
    }
}

} // verus!
