//! One core of the timing model: its units, grouped configuration, and
//! the two halves of a cycle.

use crate::timeflow::barrier::{
    drain_ids, id_mask_for, payloads, released_by, BarrierConfig, BarrierManager, BarrierProgress,
    BarrierSummary,
};
use crate::timeflow::dma::{DmaConfig, DmaQueue, DmaReject};
use crate::timeflow::execute::{
    full_retry_for, unit_config, ExecUnitKind, ExecutePipeline, ExecutePipelineConfig,
};
use crate::timeflow::fence::{FenceConfig, FenceIssue, FenceQueue, FenceReject, FenceRequest};
use crate::timeflow::gmem::cluster::{fold_counters, layer_counters, zero_counters};
use crate::timeflow::gmem::cluster_graph::{
    charged_bytes, cluster_assigned_id, next_after, ClusterGmemGraph,
};
use crate::timeflow::gmem::graph_build::GmemFlowConfig;
use crate::timeflow::gmem::request::{
    GmemCompletion, GmemIssue, GmemReject, GmemRejectReason, GmemRequest, GmemRequestKind,
    GmemResult,
};
use crate::timeflow::gmem::stats::GmemStats;
use crate::timeflow::graph::{FlowGraph, TimedNode};
use crate::timeflow::icache::{
    classified, counted_issue, fetch_hits, path_outcome, stats_after_completions,
    IcacheFlowConfig, IcacheIssue, IcacheReject, IcacheRequest, IcacheStats, IcacheSubgraph,
};
use crate::timeflow::lsu::{
    usize_dec, LsuCompletion, LsuFlowConfig, LsuIssue, LsuPayload, LsuReject, LsuStats,
    LsuSubgraph,
};
use crate::timeflow::operand_fetch::{OperandFetchConfig, OperandFetchQueue, OperandFetchReject};
use crate::timeflow::simple_queue::SimpleTimedQueue;
use crate::timeflow::smem::subgraph::{
    assigned_id, banks_of, buildable, bump, next_id_after, stats_after_finishing, stats_after_issue,
    with_id, SmemSubgraph,
};
use crate::timeflow::smem::{
    at_least_one, SmemCompletion, SmemFlowConfig, SmemIssue, SmemReject, SmemRequest, SmemStats,
    SmemUtilSample,
};
use crate::timeflow::tensor::{TensorConfig, TensorQueue, TensorReject};
use crate::timeflow::types::{CoreFlowPayload, RejectReason};
use crate::timeflow::warp_scheduler::WarpSchedulerConfig;
use crate::timeflow::writeback::{
    WritebackConfig, WritebackIssue, WritebackPayload, WritebackQueue, WritebackReject,
    WritebackStats,
};
use crate::timeq::{bytes_of, max_spec, sat_add, sat_sub, Backpressure, Cycle, ServiceResult, Ticket};
use vstd::prelude::*;

verus! {

#[derive(Debug, Clone)]
pub struct ComputeConfig {
    pub tensor: TensorConfig,
    pub scheduler: WarpSchedulerConfig,
    pub execute: ExecutePipelineConfig,
}

impl ComputeConfig {
    /// The values that `default()` gives.
    pub open spec fn is_default(self) -> bool {
        &&& !self.tensor.enabled
        &&& self.tensor.mmio_base == 0
        &&& self.tensor.mmio_size == 0
        &&& self.tensor.csr_addrs@.len() == 0
        &&& self.tensor.queue.base_latency == 20
        &&& self.tensor.queue.bytes_per_cycle == 256
        &&& self.tensor.queue.queue_capacity == 8
        &&& self.tensor.queue.completions_per_cycle == 1
        &&& self.tensor.queue.warmup_latency == 0
        &&& !self.scheduler.enabled
        &&& self.scheduler.issue_width == 1
        &&& self.execute.alu == unit_config(1, 16, 4)
        &&& self.execute.int_mul == unit_config(3, 16, 2)
        &&& self.execute.int_div == unit_config(16, 8, 2)
        &&& self.execute.fp == unit_config(4, 8, 4)
        &&& self.execute.sfu == unit_config(8, 16, 2)
        &&& self.execute.valid()
    }
}

impl Default for ComputeConfig {
    fn default() -> (r: Self)
        ensures
            r.is_default(),
    {
        Self {
            tensor: TensorConfig::default(),
            scheduler: WarpSchedulerConfig::default(),
            execute: ExecutePipelineConfig::default(),
        }
    }
}

#[derive(Debug, Clone)]
pub struct IoConfig {
    pub barrier: BarrierConfig,
    pub fence: FenceConfig,
    pub dma: DmaConfig,
}

impl IoConfig {
    /// The values that `default()` gives.
    pub open spec fn is_default(self) -> bool {
        &&& !self.barrier.enabled
        &&& self.barrier.expected_warps is None
        &&& self.barrier.barrier_id_bits == 0
        &&& self.barrier.queue.base_latency == 1
        &&& self.barrier.queue.bytes_per_cycle == 1
        &&& self.barrier.queue.queue_capacity == 4
        &&& self.barrier.queue.completions_per_cycle == 1
        &&& self.barrier.queue.warmup_latency == 0
        &&& !self.fence.enabled
        &&& self.fence.queue.base_latency == 1
        &&& self.fence.queue.bytes_per_cycle == 1
        &&& self.fence.queue.queue_capacity == 4
        &&& self.fence.queue.completions_per_cycle == 1
        &&& self.fence.queue.warmup_latency == 0
        &&& !self.dma.enabled
        &&& self.dma.mmio_base == 0
        &&& self.dma.mmio_size == 0
        &&& self.dma.csr_addrs@.len() == 0
        &&& self.dma.queue.base_latency == 10
        &&& self.dma.queue.bytes_per_cycle == 256
        &&& self.dma.queue.queue_capacity == 8
        &&& self.dma.queue.completions_per_cycle == 1
        &&& self.dma.queue.warmup_latency == 0
    }
}

impl Default for IoConfig {
    fn default() -> (r: Self)
        ensures
            r.is_default(),
    {
        Self {
            barrier: BarrierConfig::default(),
            fence: FenceConfig::default(),
            dma: DmaConfig::default(),
        }
    }
}


#[derive(Debug, Clone)]
pub struct MemoryConfig {
    pub gmem: GmemFlowConfig,
    pub smem: SmemFlowConfig,
    pub lsu: LsuFlowConfig,
    pub icache: IcacheFlowConfig,
    pub writeback: WritebackConfig,
    pub operand_fetch: OperandFetchConfig,
}

impl MemoryConfig {
    /// The values that `default()` gives.
    pub open spec fn is_default(self) -> bool {
        &&& self.gmem.is_default()
        &&& self.smem.is_default()
        &&& self.lsu.is_default()
        &&& self.icache.is_default()
        &&& self.writeback.is_default()
        &&& self.operand_fetch.is_default()
    }
}

impl Default for MemoryConfig {
    fn default() -> (r: Self)
        ensures
            r.is_default(),
    {
        Self {
            gmem: GmemFlowConfig::default(),
            smem: SmemFlowConfig::default(),
            lsu: LsuFlowConfig::default(),
            icache: IcacheFlowConfig::default(),
            writeback: WritebackConfig::default(),
            operand_fetch: OperandFetchConfig::default(),
        }
    }
}

#[derive(Debug, Clone)]
pub struct CoreGraphConfig {
    pub memory: MemoryConfig,
    pub compute: ComputeConfig,
    pub io: IoConfig,
}

impl CoreGraphConfig {
    /// The values that `default()` gives.
    pub open spec fn is_default(self) -> bool {
        &&& self.memory.is_default()
        &&& self.compute.is_default()
        &&& self.io.is_default()
    }

    /// Every unit of a core can be built from this configuration.
    pub open spec fn buildable(self) -> bool {
        &&& buildable(self.memory.smem)
        &&& self.memory.icache.valid()
        &&& self.memory.lsu.valid()
        &&& self.memory.operand_fetch.queue.valid()
        &&& self.memory.writeback.queue.valid()
        &&& self.compute.tensor.queue.valid()
        &&& self.compute.execute.valid()
        &&& self.io.dma.queue.valid()
        &&& self.io.fence.queue.valid()
        &&& self.io.barrier.queue.valid()
    }
}

impl Default for CoreGraphConfig {
    fn default() -> (r: Self)
        ensures
            r.is_default(),
    {
        Self { memory: MemoryConfig::default(), compute: ComputeConfig::default(), io: IoConfig::default() }
    }
}

/// `post` is the operand-fetch queue `pre` after it retired what is ready
/// at `now` (nothing when it is off).
pub open spec fn queue_ticked(pre: OperandFetchQueue, post: OperandFetchQueue, now: Cycle) -> bool {
    &&& post.wf()
    &&& post.enabled_spec() == pre.enabled_spec()
    &&& !pre.enabled_spec() ==> post == pre
    &&& pre.enabled_spec() ==> {
        let s = pre.server_spec();
        let p = post.server_spec();
        let k = s.moved_at(now) as int;
        &&& p.pending() == s.pending().skip(k)
        &&& p.done().len() == 0
        &&& p.cfg() == s.cfg()
        &&& p.warmup() == s.warmup()
    }
}

/// `post` is the cluster memory `pre` advanced to `now`.
pub open spec fn cluster_ticked(
    pre: Option<ClusterGmemGraph>,
    post: Option<ClusterGmemGraph>,
    now: Cycle,
) -> bool {
    match pre {
        None => post is None,
        Some(pre) => match post {
            None => false,
            Some(post) => {
                &&& post.wf()
                        &&& pre.last_tick_spec() == now ==> post == pre
                        &&& pre.appended_at(&post, now)
                        &&& post.last_tick_spec() == now
            },
        },
    }
}

/// `post` is the cluster memory `pre` after offering `request` from core
/// `core_id` at `now`, with outcome `r`.
pub open spec fn cluster_issued(
    pre: ClusterGmemGraph,
    post: ClusterGmemGraph,
    core_id: usize,
    now: Cycle,
    request: GmemRequest,
    r: GmemResult<GmemIssue>,
) -> bool {
        &&& post.wf()
        &&& pre.others_kept(&post, core_id as int)
        &&& core_id >= pre.core_count() ==> (r matches Err(e) && e.reason == GmemRejectReason::QueueFull
            && e.retry_at == sat_add(now as int, 1) && e.request == request)
        &&& core_id < pre.core_count() ==> post.queue(core_id as int) == pre.queue(
            core_id as int,
        )
        &&& core_id < pre.core_count() && (request.kind == GmemRequestKind::Load || request.kind
            == GmemRequestKind::Store) && request.cluster_id >= pre.cluster_count() ==> (r matches Err(
            e,
        ) && e.reason == GmemRejectReason::QueueFull && e.retry_at == sat_add(now as int, 1))
            && post.core_stat(core_id as int) == pre.core_stat(core_id as int)
        &&& r matches Ok(i) ==> core_id < pre.core_count() && i.request_id == cluster_assigned_id(
            pre.core_next_id(core_id as int),
            request.id,
        ) && post.core_stat(core_id as int) == pre.core_stat(core_id as int).after_issue(
            charged_bytes(pre.policy_spec(), request),
        ) && post.core_next_id(core_id as int) == next_after(
            pre.core_next_id(core_id as int),
            i.request_id,
        )
        &&& r matches Err(e) ==> (core_id < pre.core_count() ==> e.request.id == cluster_assigned_id(
            pre.core_next_id(core_id as int),
            request.id,
        ) && e.request.core_id == core_id && post.core_next_id(core_id as int) == pre.core_next_id(core_id as int))
        &&& r matches Err(e) ==> (e.reason == GmemRejectReason::QueueFull ==> e.retry_at == sat_add(now as int, 1))
}

/// `post` is the cluster memory `pre` after core `core_id`'s counters were
/// reset.
pub open spec fn cluster_cleared(pre: ClusterGmemGraph, post: ClusterGmemGraph, core_id: usize) -> bool {
        &&& post.wf()
        &&& pre.others_kept(&post, core_id as int)
        &&& core_id < pre.core_count() ==> post.core_stat(core_id as int) == zero_counters()
            && post.queue(core_id as int) == pre.queue(core_id as int)
            && post.core_next_id(core_id as int) == pre.core_next_id(core_id as int)
}

/// `post` is the cluster memory `pre` after every completion waiting for
/// core `core` was taken, in order, as `out`.
pub open spec fn drained_core(
    pre: ClusterGmemGraph,
    post: ClusterGmemGraph,
    core: int,
    out: Seq<GmemCompletion>,
) -> bool {
    &&& post.wf()
    &&& pre.others_kept(&post, core)
    &&& core >= pre.core_count() ==> out.len() == 0
    &&& core < pre.core_count() ==> {
        &&& out == pre.queue(core)
        &&& post.queue(core).len() == 0
        &&& post.core_stat(core) == pre.core_stat(core)
        &&& post.core_next_id(core) == pre.core_next_id(core)
    }
}

/// Take every completion waiting for core `core_id`, oldest first.
fn drain_core(cluster: &mut ClusterGmemGraph, core_id: usize) -> (r: Vec<GmemCompletion>)
    requires
        old(cluster).wf(),
    ensures
        drained_core(*old(cluster), *final(cluster), core_id as int, r@),
{
    let ghost c0 = *cluster;
    let mut out: Vec<GmemCompletion> = Vec::new();
    loop
        invariant
            cluster.wf(),
            c0.others_kept(&*cluster, core_id as int),
            core_id >= c0.core_count() ==> out@.len() == 0,
            core_id < c0.core_count() ==> {
                &&& out@ + cluster.queue(core_id as int) == c0.queue(core_id as int)
                &&& cluster.core_stat(core_id as int) == c0.core_stat(core_id as int)
                &&& cluster.core_next_id(core_id as int) == c0.core_next_id(core_id as int)
            },
        ensures
            drained_core(c0, *cluster, core_id as int, out@),
        decreases (if core_id < c0.core_count() { cluster.queue(core_id as int).len() } else { 0 }),
    {
        let ghost before = *cluster;
        match cluster.pop_completion(core_id) {
            Some(c) => {
                proof {
                    assert(out@.push(c) + cluster.queue(core_id as int) =~= c0.queue(core_id as int)) by {
                        assert(before.queue(core_id as int) == seq![c] + cluster.queue(core_id as int));
                    }
                }
                out.push(c);
            },
            None => {
                proof {
                    if core_id < c0.core_count() {
                        assert(out@ =~= c0.queue(core_id as int));
                    }
                }
                break ;
            },
        }
    }
    out
}

/// The parts of a core graph that one operation may change.
#[derive(Debug, Clone, Copy, PartialEq, Eq, Structural)]
pub enum CorePart {
    Graph,
    Smem,
    Icache,
    Lsu,
    OperandFetch,
    Dma,
    Tensor,
    Execute,
    Writeback,
    Fence,
    Barrier,
    Cluster,
}

/// One core: its flow graph, shared memory, instruction cache, load/store
/// unit, operand fetch, DMA, tensor, execute, writeback, fence and barrier
/// units, and the cluster's global memory when one is attached.
pub struct CoreGraph {
    graph: FlowGraph<CoreFlowPayload>,
    smem: SmemSubgraph,
    icache: IcacheSubgraph,
    lsu: LsuSubgraph,
    operand_fetch: OperandFetchQueue,
    dma: DmaQueue,
    tensor: TensorQueue,
    execute: ExecutePipeline,
    writeback: WritebackQueue,
    fence: FenceQueue,
    barrier: BarrierManager,
    cluster_gmem: Option<ClusterGmemGraph>,
}

impl CoreGraph {
    pub closed spec fn graph_part(&self) -> FlowGraph<CoreFlowPayload> {
        self.graph
    }

    pub closed spec fn smem_part(&self) -> SmemSubgraph {
        self.smem
    }

    pub closed spec fn icache_part(&self) -> IcacheSubgraph {
        self.icache
    }

    pub closed spec fn lsu_part(&self) -> LsuSubgraph {
        self.lsu
    }

    pub closed spec fn operand_fetch_part(&self) -> OperandFetchQueue {
        self.operand_fetch
    }

    pub closed spec fn dma_part(&self) -> DmaQueue {
        self.dma
    }

    pub closed spec fn tensor_part(&self) -> TensorQueue {
        self.tensor
    }

    pub closed spec fn execute_part(&self) -> ExecutePipeline {
        self.execute
    }

    pub closed spec fn writeback_part(&self) -> WritebackQueue {
        self.writeback
    }

    pub closed spec fn fence_part(&self) -> FenceQueue {
        self.fence
    }

    pub closed spec fn barrier_part(&self) -> BarrierManager {
        self.barrier
    }

    pub closed spec fn cluster_part(&self) -> Option<ClusterGmemGraph> {
        self.cluster_gmem
    }

    pub open spec fn wf(&self) -> bool {
        &&& self.graph_part().wf()
        &&& self.graph_part().node_count() == 0
        &&& self.smem_part().wf()
        &&& self.icache_part().wf()
        &&& self.lsu_part().wf()
        &&& self.operand_fetch_part().wf()
        &&& self.dma_part().wf()
        &&& self.tensor_part().wf()
        &&& self.execute_part().wf()
        &&& self.writeback_part().wf()
        &&& self.fence_part().wf()
        &&& self.barrier_part().wf()
        &&& self.cluster_part() matches Some(c) ==> c.wf()
    }

    /// `post` keeps every part of `self` but `part`.
    pub open spec fn same_except(&self, post: &Self, part: CorePart) -> bool {
        &&& part != CorePart::Graph ==> post.graph_part() == self.graph_part()
        &&& part != CorePart::Smem ==> post.smem_part() == self.smem_part()
        &&& part != CorePart::Icache ==> post.icache_part() == self.icache_part()
        &&& part != CorePart::Lsu ==> post.lsu_part() == self.lsu_part()
        &&& part != CorePart::OperandFetch ==> post.operand_fetch_part() == self.operand_fetch_part()
        &&& part != CorePart::Dma ==> post.dma_part() == self.dma_part()
        &&& part != CorePart::Tensor ==> post.tensor_part() == self.tensor_part()
        &&& part != CorePart::Execute ==> post.execute_part() == self.execute_part()
        &&& part != CorePart::Writeback ==> post.writeback_part() == self.writeback_part()
        &&& part != CorePart::Fence ==> post.fence_part() == self.fence_part()
        &&& part != CorePart::Barrier ==> post.barrier_part() == self.barrier_part()
        &&& part != CorePart::Cluster ==> post.cluster_part() == self.cluster_part()
    }

    /// Build every unit of a core from `config` for `num_warps` warps,
    /// with the cluster's global memory when one is given.
    pub fn new(config: CoreGraphConfig, num_warps: usize, cluster_gmem: Option<ClusterGmemGraph>) -> (r: Self)
        requires
            config.buildable(),
            cluster_gmem matches Some(c) ==> c.wf(),
        ensures
            r.wf(),
            r.graph_part().edge_count() == 0,
            r.cluster_part() == cluster_gmem,
            r.smem_part().config_spec() == config.memory.smem,
            r.smem_part().completions_spec().len() == 0,
            r.smem_part().inflight_total() == 0,
            r.smem_part().next_id_spec() == 0,
            r.smem_part().last_busy() == (0usize, 0usize),
            r.smem_part().stats_spec().scalars_zero(),
            r.smem_part().stats_spec().bank_busy_samples@ == Seq::new(banks_of(config.memory.smem) as nat, |i: int| 0u64),
            r.smem_part().stats_spec().bank_read_busy_samples@ == Seq::new(banks_of(config.memory.smem) as nat, |i: int| 0u64),
            r.smem_part().stats_spec().bank_write_busy_samples@ == Seq::new(banks_of(config.memory.smem) as nat, |i: int| 0u64),
            r.smem_part().stats_spec().bank_attempts@ == Seq::new(banks_of(config.memory.smem) as nat, |i: int| 0u64),
            r.smem_part().stats_spec().bank_conflicts@ == Seq::new(banks_of(config.memory.smem) as nat, |i: int| 0u64),
            r.icache_part().hit_path().cfg() == config.memory.icache.hit,
            r.icache_part().miss_path().cfg() == config.memory.icache.miss,
            r.icache_part().hit_path().pending().len() == 0,
            r.icache_part().miss_path().pending().len() == 0,
            r.icache_part().hit_path().done().len() == 0,
            r.icache_part().miss_path().done().len() == 0,
            r.icache_part().hit_path().next_issue() == 0,
            r.icache_part().miss_path().next_issue() == 0,
            r.icache_part().hit_path().warmup() == config.memory.icache.hit.warmup_latency,
            r.icache_part().miss_path().warmup() == config.memory.icache.miss.warmup_latency,
            r.icache_part().policy_spec() == config.memory.icache.policy,
            r.icache_part().stats_spec() == IcacheStats::zeroed(),
            r.lsu_part().warps() == num_warps,
            r.lsu_part().res() == config.memory.lsu.resources,
            r.lsu_part().address_used() == 0,
            r.lsu_part().store_used() == 0,
            r.lsu_part().load_used() == 0,
            r.lsu_part().stat().is_zero(),
            forall|w: int| 0 <= w < num_warps ==> #[trigger] r.lsu_part().pending_global()[w] == 0,
            forall|w: int| 0 <= w < num_warps ==> #[trigger] r.lsu_part().pending_shared()[w] == 0,
            r.operand_fetch_part().enabled_spec() == config.memory.operand_fetch.enabled,
            r.operand_fetch_part().server_spec().cfg() == config.memory.operand_fetch.queue,
            r.operand_fetch_part().server_spec().pending().len() == 0,
            r.operand_fetch_part().server_spec().done().len() == 0,
            r.operand_fetch_part().server_spec().next_issue() == 0,
            r.operand_fetch_part().server_spec().warmup() == config.memory.operand_fetch.queue.warmup_latency,
            r.operand_fetch_part().server_spec().stat().is_zero(),
            r.dma_part().queue_spec().enabled_spec() == config.io.dma.enabled,
            r.dma_part().queue_spec().server_spec().cfg() == config.io.dma.queue,
            r.dma_part().queue_spec().server_spec().pending().len() == 0,
            r.dma_part().queue_spec().server_spec().done().len() == 0,
            r.dma_part().queue_spec().server_spec().next_issue() == 0,
            r.dma_part().queue_spec().server_spec().warmup() == config.io.dma.queue.warmup_latency,
            r.dma_part().completed_spec() == 0,
            r.dma_part().bytes_issued_spec() == 0,
            r.dma_part().bytes_completed_spec() == 0,
            r.dma_part().mmio_base_spec() == config.io.dma.mmio_base,
            r.dma_part().mmio_size_spec() == config.io.dma.mmio_size,
            r.dma_part().csrs() == config.io.dma.csr_addrs@,
            r.tensor_part().queue_spec().enabled_spec() == config.compute.tensor.enabled,
            r.tensor_part().queue_spec().server_spec().cfg() == config.compute.tensor.queue,
            r.tensor_part().queue_spec().server_spec().pending().len() == 0,
            r.tensor_part().queue_spec().server_spec().done().len() == 0,
            r.tensor_part().queue_spec().server_spec().next_issue() == 0,
            r.tensor_part().queue_spec().server_spec().warmup() == config.compute.tensor.queue.warmup_latency,
            r.tensor_part().completed_spec() == 0,
            r.tensor_part().bytes_issued_spec() == 0,
            r.tensor_part().bytes_completed_spec() == 0,
            r.tensor_part().mmio_base_spec() == config.compute.tensor.mmio_base,
            r.tensor_part().mmio_size_spec() == config.compute.tensor.mmio_size,
            r.tensor_part().csrs() == config.compute.tensor.csr_addrs@,
            r.execute_part().unit(ExecUnitKind::Int).cfg() == config.compute.execute.alu,
            r.execute_part().unit(ExecUnitKind::IntMul).cfg() == config.compute.execute.int_mul,
            r.execute_part().unit(ExecUnitKind::IntDiv).cfg() == config.compute.execute.int_div,
            r.execute_part().unit(ExecUnitKind::Fp).cfg() == config.compute.execute.fp,
            r.execute_part().unit(ExecUnitKind::Sfu).cfg() == config.compute.execute.sfu,
            forall|k: ExecUnitKind| #[trigger] r.execute_part().unit(k).outstanding_spec() == 0,
            r.writeback_part().queue_spec().enabled_spec() == config.memory.writeback.enabled,
            r.writeback_part().queue_spec().server_spec().cfg() == config.memory.writeback.queue,
            r.writeback_part().queue_spec().server_spec().pending().len() == 0,
            r.writeback_part().queue_spec().server_spec().done().len() == 0,
            r.writeback_part().queue_spec().server_spec().next_issue() == 0,
            r.writeback_part().queue_spec().server_spec().warmup() == config.memory.writeback.queue.warmup_latency,
            r.writeback_part().waiting().len() == 0,
            r.writeback_part().stat() == (WritebackStats { issued: 0, completed: 0, queue_full_rejects: 0, busy_rejects: 0 }),
            r.fence_part().queue_spec().enabled_spec() == config.io.fence.enabled,
            r.fence_part().queue_spec().server_spec().cfg() == config.io.fence.queue,
            r.fence_part().queue_spec().server_spec().pending().len() == 0,
            r.fence_part().queue_spec().server_spec().done().len() == 0,
            r.fence_part().queue_spec().server_spec().next_issue() == 0,
            r.fence_part().queue_spec().server_spec().warmup() == config.io.fence.queue.warmup_latency,
            r.fence_part().released().len() == 0,
            r.barrier_part().enabled_spec() == config.io.barrier.enabled,
            r.barrier_part().warps() == (if num_warps >= 1 {
                num_warps
            } else {
                1
            }),
            r.barrier_part().expected() == (match config.io.barrier.expected_warps {
                None => r.barrier_part().warps(),
                Some(v) => if v <= r.barrier_part().warps() {
                    v
                } else {
                    r.barrier_part().warps()
                },
            }),
            r.barrier_part().mask() == id_mask_for(config.io.barrier.barrier_id_bits),
            r.barrier_part().barriers() == Map::<u32, BarrierProgress>::empty(),
            r.barrier_part().queue().cfg() == config.io.barrier.queue,
            r.barrier_part().queue().pending().len() == 0,
            r.barrier_part().queue().done().len() == 0,
            r.barrier_part().stat().is_zero(),
    {
        let mut graph = FlowGraph::new();
        let smem = SmemSubgraph::attach(&mut graph, &config.memory.smem);
        CoreGraph {
            graph,
            smem,
            icache: IcacheSubgraph::new(config.memory.icache),
            lsu: LsuSubgraph::new(config.memory.lsu, num_warps),
            operand_fetch: SimpleTimedQueue::new(
                config.memory.operand_fetch.enabled,
                config.memory.operand_fetch.queue,
            ),
            dma: DmaQueue::new(config.io.dma),
            tensor: TensorQueue::new(config.compute.tensor),
            execute: ExecutePipeline::new(config.compute.execute),
            writeback: WritebackQueue::new(config.memory.writeback),
            fence: FenceQueue::new(config.io.fence),
            barrier: BarrierManager::new(config.io.barrier, num_warps),
            cluster_gmem,
        }
    }

    /// The front half of a cycle: the instruction cache, the load/store
    /// unit, operand fetch, DMA, tensor and execute units retire what is
    /// ready at `now`, then the cluster's global memory advances.
    pub fn tick_front(&mut self, now: Cycle)
        requires
            old(self).wf(),
        ensures
            final(self).wf(),
            final(self).graph_part() == old(self).graph_part(),
            final(self).smem_part() == old(self).smem_part(),
            final(self).writeback_part() == old(self).writeback_part(),
            final(self).fence_part() == old(self).fence_part(),
            final(self).barrier_part() == old(self).barrier_part(),
            old(self).icache_part().hit_path().serviced(&final(self).icache_part().hit_path(), now),
            old(self).icache_part().miss_path().serviced(&final(self).icache_part().miss_path(), now),
            final(self).icache_part().policy_spec() == old(self).icache_part().policy_spec(),
            final(self).icache_part().stats_spec() == stats_after_completions(
                old(self).icache_part().stats_spec(),
                old(self).icache_part().hit_path().serviced_out(now) + old(self).icache_part().miss_path().serviced_out(now),
                now,
            ),
            old(self).lsu_part().same_setup(&final(self).lsu_part()),
            final(self).lsu_part().pending_global() == old(self).lsu_part().pending_global(),
            final(self).lsu_part().pending_shared() == old(self).lsu_part().pending_shared(),
            final(self).lsu_part().address_used() == old(self).lsu_part().address_used(),
            final(self).lsu_part().store_used() == old(self).lsu_part().store_used(),
            final(self).lsu_part().load_used() == old(self).lsu_part().load_used(),
            final(self).lsu_part().stat() == old(self).lsu_part().stat(),
            final(self).dma_part().queue_spec().enabled_spec() == old(self).dma_part().queue_spec().enabled_spec(),
            ({
                let s = old(self).dma_part().queue_spec().server_spec();
                let drained: Seq<ServiceResult<()>> = if old(self).dma_part().queue_spec().enabled_spec() {
                    s.done() + s.pending().take(s.moved_at(now) as int)
                } else {
                    Seq::empty()
                };
                &&& final(self).dma_part().completed_spec() == sat_add(
                    old(self).dma_part().completed_spec() as int,
                    drained.len() as int,
                )
                &&& final(self).dma_part().bytes_completed_spec() == sat_add(
                    old(self).dma_part().bytes_completed_spec() as int,
                    bytes_of(drained),
                )
            }),
            final(self).dma_part().bytes_issued_spec() == old(self).dma_part().bytes_issued_spec(),
            final(self).dma_part().mmio_base_spec() == old(self).dma_part().mmio_base_spec(),
            final(self).dma_part().mmio_size_spec() == old(self).dma_part().mmio_size_spec(),
            final(self).dma_part().csrs() == old(self).dma_part().csrs(),
            final(self).tensor_part().queue_spec().enabled_spec() == old(self).tensor_part().queue_spec().enabled_spec(),
            ({
                let s = old(self).tensor_part().queue_spec().server_spec();
                let drained: Seq<ServiceResult<()>> = if old(self).tensor_part().queue_spec().enabled_spec() {
                    s.done() + s.pending().take(s.moved_at(now) as int)
                } else {
                    Seq::empty()
                };
                &&& final(self).tensor_part().completed_spec() == sat_add(
                    old(self).tensor_part().completed_spec() as int,
                    drained.len() as int,
                )
                &&& final(self).tensor_part().bytes_completed_spec() == sat_add(
                    old(self).tensor_part().bytes_completed_spec() as int,
                    bytes_of(drained),
                )
            }),
            final(self).tensor_part().bytes_issued_spec() == old(self).tensor_part().bytes_issued_spec(),
            final(self).tensor_part().mmio_base_spec() == old(self).tensor_part().mmio_base_spec(),
            final(self).tensor_part().mmio_size_spec() == old(self).tensor_part().mmio_size_spec(),
            final(self).tensor_part().csrs() == old(self).tensor_part().csrs(),
            forall|k: ExecUnitKind|
                {
                    let s = #[trigger] old(self).execute_part().unit(k);
                    let p = final(self).execute_part().unit(k);
                    &&& p.pending() == s.pending().skip(s.moved_at(now) as int)
                    &&& p.done().len() == 0
                    &&& p.cfg() == s.cfg()
                },
            queue_ticked(old(self).operand_fetch_part(), final(self).operand_fetch_part(), now),
            cluster_ticked(old(self).cluster_part(), final(self).cluster_part(), now),
    {
        self.icache.tick(now);
        self.lsu.tick(now);
        let _ = self.operand_fetch.tick(now);
        self.dma.tick(now);
        self.tensor.tick(now);
        self.execute.tick(now);
        match &mut self.cluster_gmem {
            Some(cluster) => cluster.tick(now),
            None => {},
        }
    }

    /// Advance the flow graph by one cycle, then move finished shared-memory
    /// requests to the completion queue.
    pub fn tick_graph(&mut self, now: Cycle)
        requires
            old(self).wf(),
        ensures
            final(self).wf(),
            final(self).icache_part() == old(self).icache_part(),
            final(self).lsu_part() == old(self).lsu_part(),
            final(self).operand_fetch_part() == old(self).operand_fetch_part(),
            final(self).dma_part() == old(self).dma_part(),
            final(self).tensor_part() == old(self).tensor_part(),
            final(self).execute_part() == old(self).execute_part(),
            final(self).writeback_part() == old(self).writeback_part(),
            final(self).fence_part() == old(self).fence_part(),
            final(self).barrier_part() == old(self).barrier_part(),
            final(self).cluster_part() == old(self).cluster_part(),
            old(self).graph_part().same_shape(&final(self).graph_part()),
            forall|e: int|
                0 <= e < old(self).graph_part().edge_count() ==> #[trigger] old(self).graph_part().link_moved_some(
                    &final(self).graph_part(),
                    e,
                ),
            forall|e: int|
                0 <= e < old(self).graph_part().edge_count() ==> #[trigger] final(self).graph_part().link_settled(
                    e,
                    now,
                ),
            final(self).smem_part().config_spec() == old(self).smem_part().config_spec(),
            final(self).smem_part().next_id_spec() == old(self).smem_part().next_id_spec(),
            final(self).smem_part().last_busy() == old(self).smem_part().last_busy(),
            old(self).smem_part().tails_finished_some(&final(self).smem_part(), now),
            ({
                let before = old(self).smem_part().completions_spec();
                let after = final(self).smem_part().completions_spec();
                let added = after.skip(before.len() as int);
                &&& after.len() >= before.len()
                &&& after.take(before.len() as int) == before
                &&& forall|i: int| 0 <= i < added.len() ==> (#[trigger] added[i]).completed_at == now
                &&& final(self).smem_part().inflight_total() == sat_sub(old(self).smem_part().inflight_total() as int, added.len() as int)
                &&& stats_after_finishing(
                    old(self).smem_part().stats_spec(),
                    final(self).smem_part().stats_spec(),
                    added,
                    now,
                    final(self).smem_part().inflight_total(),
                )
                &&& final(self).smem_part().stats_spec().max_completion_queue == max_spec(
                    old(self).smem_part().stats_spec().max_completion_queue,
                    after.len() as u64,
                )
            }),
    {
        self.graph.tick(now);
        self.smem.collect_completions(&mut self.graph, now);
    }

    /// The back half of a cycle: the writeback and fence queues release
    /// what is ready at `now`.
    pub fn tick_back(&mut self, now: Cycle)
        requires
            old(self).wf(),
        ensures
            final(self).wf(),
            final(self).graph_part() == old(self).graph_part(),
            final(self).smem_part() == old(self).smem_part(),
            final(self).icache_part() == old(self).icache_part(),
            final(self).lsu_part() == old(self).lsu_part(),
            final(self).operand_fetch_part() == old(self).operand_fetch_part(),
            final(self).dma_part() == old(self).dma_part(),
            final(self).tensor_part() == old(self).tensor_part(),
            final(self).execute_part() == old(self).execute_part(),
            final(self).barrier_part() == old(self).barrier_part(),
            final(self).cluster_part() == old(self).cluster_part(),
            final(self).writeback_part().stat() == old(self).writeback_part().stat(),
            final(self).writeback_part().queue_spec().enabled_spec() == old(self).writeback_part().queue_spec().enabled_spec(),
            !old(self).writeback_part().queue_spec().enabled_spec() ==> final(self).writeback_part().waiting() == old(self).writeback_part().waiting()
                && final(self).writeback_part().queue_spec() == old(self).writeback_part().queue_spec(),
            old(self).writeback_part().queue_spec().enabled_spec() ==> {
                let s = old(self).writeback_part().queue_spec().server_spec();
                let k = s.moved_at(now) as int;
                &&& final(self).writeback_part().waiting() == old(self).writeback_part().waiting() + (s.done() + s.pending().take(
                    k,
                )).map_values(|x: ServiceResult<WritebackPayload>| x.payload)
                &&& final(self).writeback_part().queue_spec().server_spec().pending() == s.pending().skip(k)
            },
            final(self).fence_part().queue_spec().enabled_spec() == old(self).fence_part().queue_spec().enabled_spec(),
            !old(self).fence_part().queue_spec().enabled_spec() ==> final(self).fence_part().released() == old(self).fence_part().released() && final(self).fence_part().queue_spec() == old(self).fence_part().queue_spec(),
            old(self).fence_part().queue_spec().enabled_spec() ==> {
                let s = old(self).fence_part().queue_spec().server_spec();
                let k = s.moved_at(now) as int;
                &&& final(self).fence_part().released() == old(self).fence_part().released() + (s.done() + s.pending().take(
                    k,
                )).map_values(|x: ServiceResult<FenceRequest>| x.payload)
                &&& final(self).fence_part().queue_spec().server_spec().pending() == s.pending().skip(k)
            },
    {
        self.writeback.tick(now);
        self.fence.tick(now);
    }

    /// Issue a shared-memory request at `now`.
    pub fn issue_smem(&mut self, now: Cycle, request: SmemRequest) -> (r: Result<SmemIssue, SmemReject>)
        requires
            old(self).wf(),
        ensures
            final(self).wf(),
            old(self).same_except(final(self), CorePart::Smem),
            final(self).graph_part() == old(self).graph_part(),
            final(self).smem_part().config_spec() == old(self).smem_part().config_spec(),
            final(self).smem_part().completions_spec() == old(self).smem_part().completions_spec(),
            final(self).smem_part().last_busy() == old(self).smem_part().last_busy(),
            final(self).smem_part().next_id_spec() == next_id_after(old(self).smem_part().next_id_spec(), request.id),
            stats_after_issue(
                old(self).smem_part().stats_spec(),
                final(self).smem_part().stats_spec(),
                old(self).smem_part().config_spec(),
                request,
                old(self).smem_part().issue_verdict(request, now),
                old(self).smem_part().inflight_total(),
            ),
            old(self).smem_part().issue_verdict(request, now) matches Some((reason, retry)) ==> (r matches Err(e)
                && e.reason == reason && e.retry_at == retry && e.payload == with_id(
                request,
                assigned_id(old(self).smem_part().next_id_spec(), request.id),
            )) && final(self).smem_part().inflight_total() == old(self).smem_part().inflight_total(),
            old(self).smem_part().issue_verdict(request, now) is None ==> (r matches Ok(issue) && issue.request_id
                == assigned_id(old(self).smem_part().next_id_spec(), request.id) && issue.ticket.issued() == now
                && issue.ticket.ready() == now && issue.ticket.size() == request.bytes)
                && final(self).smem_part().inflight_total() == sat_add(old(self).smem_part().inflight_total() as int, 1),
    {
        self.smem.issue(&mut self.graph, now, request)
    }

    /// The oldest finished shared-memory request, removed.
    pub fn pop_smem_completion(&mut self) -> (r: Option<SmemCompletion>)
        requires
            old(self).wf(),
        ensures
            final(self).wf(),
            old(self).same_except(final(self), CorePart::Smem),
            final(self).smem_part().config_spec() == old(self).smem_part().config_spec(),
            old(self).smem_part().completions_spec().len() == 0 ==> r is None && final(self).smem_part().completions_spec()
                == old(self).smem_part().completions_spec(),
            old(self).smem_part().completions_spec().len() > 0 ==> r == Some(old(self).smem_part().completions_spec()[0])
                && final(self).smem_part().completions_spec() == old(self).smem_part().completions_spec().drop_first(),
    {
        self.smem.take_completion()
    }

    /// Reset the shared-memory statistics.
    pub fn clear_smem_stats(&mut self)
        requires
            old(self).wf(),
        ensures
            final(self).wf(),
            old(self).same_except(final(self), CorePart::Smem),
            final(self).smem_part().stats_spec().scalars_zero(),
            final(self).smem_part().stats_spec().bank_busy_samples@ == Seq::new(
                banks_of(old(self).smem_part().config_spec()) as nat,
                |i: int| 0u64,
            ),
            final(self).smem_part().stats_spec().bank_read_busy_samples@ == Seq::new(
                banks_of(old(self).smem_part().config_spec()) as nat,
                |i: int| 0u64,
            ),
            final(self).smem_part().stats_spec().bank_write_busy_samples@ == Seq::new(
                banks_of(old(self).smem_part().config_spec()) as nat,
                |i: int| 0u64,
            ),
            final(self).smem_part().stats_spec().bank_attempts@ == Seq::new(
                banks_of(old(self).smem_part().config_spec()) as nat,
                |i: int| 0u64,
            ),
            final(self).smem_part().stats_spec().bank_conflicts@ == Seq::new(
                banks_of(old(self).smem_part().config_spec()) as nat,
                |i: int| 0u64,
            ),
            final(self).smem_part().config_spec() == old(self).smem_part().config_spec(),
            final(self).smem_part().completions_spec() == old(self).smem_part().completions_spec(),
            final(self).smem_part().inflight_total() == old(self).smem_part().inflight_total(),
            final(self).smem_part().next_id_spec() == old(self).smem_part().next_id_spec(),
            final(self).smem_part().last_busy() == old(self).smem_part().last_busy(),
    {
        self.smem.clear_stats()
    }

    /// Record one cycle of shared-memory utilization.
    pub fn record_smem_sample(&mut self)
        requires
            old(self).wf(),
        ensures
            final(self).wf(),
            old(self).same_except(final(self), CorePart::Smem),
            final(self).smem_part().last_busy() == (
                old(self).smem_part().lanes_busy_now(),
                old(self).smem_part().busy_banks_upto(banks_of(old(self).smem_part().config_spec())),
            ),
            final(self).smem_part().stats_spec().sample_cycles == sat_add(
                old(self).smem_part().stats_spec().sample_cycles as int,
                1,
            ),
            forall|b: int|
                0 <= b < banks_of(old(self).smem_part().config_spec()) ==> {
                    &&& #[trigger] final(self).smem_part().stats_spec().bank_read_busy_samples@[b] == bump(
                        old(self).smem_part().stats_spec().bank_read_busy_samples@[b],
                        old(self).smem_part().bank_busy_reading(b),
                    )
                    &&& final(self).smem_part().stats_spec().bank_write_busy_samples@[b] == bump(
                        old(self).smem_part().stats_spec().bank_write_busy_samples@[b],
                        old(self).smem_part().bank_busy_writing(b),
                    )
                    &&& final(self).smem_part().stats_spec().bank_busy_samples@[b] == bump(
                        old(self).smem_part().stats_spec().bank_busy_samples@[b],
                        old(self).smem_part().bank_busy_reading(b) || old(self).smem_part().bank_busy_writing(b),
                    )
                },
            final(self).smem_part().stats_spec().issued == old(self).smem_part().stats_spec().issued,
            final(self).smem_part().stats_spec().completed == old(self).smem_part().stats_spec().completed,
            final(self).smem_part().stats_spec().bank_attempts == old(self).smem_part().stats_spec().bank_attempts,
            final(self).smem_part().stats_spec().bank_conflicts == old(self).smem_part().stats_spec().bank_conflicts,
            final(self).smem_part().config_spec() == old(self).smem_part().config_spec(),
            final(self).smem_part().completions_spec() == old(self).smem_part().completions_spec(),
            final(self).smem_part().inflight_total() == old(self).smem_part().inflight_total(),
            final(self).smem_part().next_id_spec() == old(self).smem_part().next_id_spec(),
            final(self).graph_part() == old(self).graph_part(),
    {
        self.smem.sample_and_accumulate(&mut self.graph)
    }

    /// Issue an operand fetch of `bytes` bytes at `now`.
    pub fn operand_fetch_try_issue(&mut self, now: Cycle, bytes: u32) -> (r: Result<Ticket, OperandFetchReject>)
        requires
            old(self).wf(),
        ensures
            final(self).wf(),
            old(self).same_except(final(self), CorePart::OperandFetch),
            old(self).operand_fetch_part().issue_post(&final(self).operand_fetch_part(), now, (), bytes, OperandFetchQueue::reject_view(r)),
    {
        self.operand_fetch.try_issue(now, (), bytes)
    }

    /// Issue an instruction fetch at `now`.
    pub fn issue_icache(&mut self, now: Cycle, request: IcacheRequest) -> (r: Result<IcacheIssue, IcacheReject>)
        requires
            old(self).wf(),
        ensures
            final(self).wf(),
            old(self).same_except(final(self), CorePart::Icache),
            final(self).icache_part().policy_spec() == old(self).icache_part().policy_spec(),
            ({
                let req = classified(old(self).icache_part().policy_spec(), request);
                if !req.miss {
                    &&& path_outcome(old(self).icache_part().hit_path(), final(self).icache_part().hit_path(), now, req, r)
                    &&& final(self).icache_part().miss_path() == old(self).icache_part().miss_path()
                } else {
                    &&& path_outcome(old(self).icache_part().miss_path(), final(self).icache_part().miss_path(), now, req, r)
                    &&& final(self).icache_part().hit_path() == old(self).icache_part().hit_path()
                }
            }),
            final(self).icache_part().stats_spec() == counted_issue(
                old(self).icache_part().stats_spec(),
                r,
                request.bytes,
                fetch_hits(old(self).icache_part().policy_spec(), request.pc),
            ),
    {
        self.icache.issue(now, request)
    }

    /// The instruction-cache counters.
    pub fn icache_stats(&self) -> (r: IcacheStats)
        requires
            self.wf(),
        ensures
            r == self.icache_part().stats_spec(),
    {
        self.icache.stats()
    }

    /// Reset the instruction-cache counters.
    pub fn clear_icache_stats(&mut self)
        requires
            old(self).wf(),
        ensures
            final(self).wf(),
            old(self).same_except(final(self), CorePart::Icache),
            final(self).icache_part().hit_path() == old(self).icache_part().hit_path(),
            final(self).icache_part().miss_path() == old(self).icache_part().miss_path(),
            final(self).icache_part().policy_spec() == old(self).icache_part().policy_spec(),
            final(self).icache_part().stats_spec() == IcacheStats::zeroed(),
    {
        self.icache.clear_stats()
    }

    /// Queue a writeback at `now`.
    pub fn writeback_try_issue(&mut self, now: Cycle, payload: WritebackPayload) -> (r: Result<WritebackIssue, WritebackReject>)
        requires
            old(self).wf(),
        ensures
            final(self).wf(),
            old(self).same_except(final(self), CorePart::Writeback),
            !old(self).writeback_part().queue_spec().enabled_spec() ==> {
                &&& r matches Ok(i) && i.ticket.issued() == now && i.ticket.ready() == now
                    && i.ticket.size() == 0
                &&& final(self).writeback_part().waiting() == old(self).writeback_part().waiting().push(payload)
                &&& final(self).writeback_part().queue_spec() == old(self).writeback_part().queue_spec()
            },
            old(self).writeback_part().queue_spec().enabled_spec() ==> {
                &&& final(self).writeback_part().waiting() == old(self).writeback_part().waiting()
                &&& old(self).writeback_part().queue_spec().issue_post(
                    &final(self).writeback_part().queue_spec(),
                    now,
                    payload,
                    0,
                    match r {
                        Ok(i) => Ok(i.ticket),
                        Err(e) => Err((e.retry_at, e.reason)),
                    },
                )
            },
            final(self).writeback_part().stat() == (match r {
                Ok(_) => WritebackStats {
                    issued: sat_add(old(self).writeback_part().stat().issued as int, 1),
                    ..old(self).writeback_part().stat()
                },
                Err(e) => match e.reason {
                    RejectReason::QueueFull => WritebackStats {
                        queue_full_rejects: sat_add(old(self).writeback_part().stat().queue_full_rejects as int, 1),
                        ..old(self).writeback_part().stat()
                    },
                    RejectReason::Busy => WritebackStats {
                        busy_rejects: sat_add(old(self).writeback_part().stat().busy_rejects as int, 1),
                        ..old(self).writeback_part().stat()
                    },
                },
            }),
    {
        self.writeback.try_issue(now, payload)
    }

    /// The oldest released writeback, removed.
    pub fn writeback_pop_ready(&mut self) -> (r: Option<WritebackPayload>)
        requires
            old(self).wf(),
        ensures
            final(self).wf(),
            old(self).same_except(final(self), CorePart::Writeback),
            final(self).writeback_part().queue_spec() == old(self).writeback_part().queue_spec(),
            old(self).writeback_part().waiting().len() == 0 ==> r is None && final(self).writeback_part().waiting() == old(self).writeback_part().waiting() && final(self).writeback_part().stat() == old(self).writeback_part().stat(),
            old(self).writeback_part().waiting().len() > 0 ==> r == Some(old(self).writeback_part().waiting()[0])
                && final(self).writeback_part().waiting() == old(self).writeback_part().waiting().drop_first() && final(self).writeback_part().stat()
                == (WritebackStats {
                completed: sat_add(old(self).writeback_part().stat().completed as int, 1),
                ..old(self).writeback_part().stat()
            }),
    {
        self.writeback.pop_ready()
    }

    /// The writeback counters.
    pub fn writeback_stats(&self) -> (r: WritebackStats)
        requires
            self.wf(),
        ensures
            r == self.writeback_part().stat(),
    {
        self.writeback.stats()
    }

    /// Reset the writeback counters.
    pub fn clear_writeback_stats(&mut self)
        requires
            old(self).wf(),
        ensures
            final(self).wf(),
            old(self).same_except(final(self), CorePart::Writeback),
            final(self).writeback_part().stat() == (WritebackStats {
                issued: 0,
                completed: 0,
                queue_full_rejects: 0,
                busy_rejects: 0,
            }),
            final(self).writeback_part().queue_spec() == old(self).writeback_part().queue_spec(),
            final(self).writeback_part().waiting() == old(self).writeback_part().waiting(),
    {
        self.writeback.clear_stats()
    }

    /// Queue a fence at `now`.
    pub fn fence_try_issue(&mut self, now: Cycle, request: FenceRequest) -> (r: Result<FenceIssue, FenceReject>)
        requires
            old(self).wf(),
        ensures
            final(self).wf(),
            old(self).same_except(final(self), CorePart::Fence),
            !old(self).fence_part().queue_spec().enabled_spec() ==> {
                &&& r matches Ok(i) && i.ticket.issued() == now && i.ticket.ready() == now
                    && i.ticket.size() == 0
                &&& final(self).fence_part().released() == old(self).fence_part().released().push(request)
                &&& final(self).fence_part().queue_spec() == old(self).fence_part().queue_spec()
            },
            old(self).fence_part().queue_spec().enabled_spec() ==> {
                &&& final(self).fence_part().released() == old(self).fence_part().released()
                &&& old(self).fence_part().queue_spec().issue_post(
                    &final(self).fence_part().queue_spec(),
                    now,
                    request,
                    0,
                    match r {
                        Ok(i) => Ok(i.ticket),
                        Err(e) => Err((e.retry_at, e.reason)),
                    },
                )
            },
    {
        self.fence.try_issue(now, request)
    }

    /// The oldest released fence, removed.
    pub fn fence_pop_ready(&mut self) -> (r: Option<FenceRequest>)
        requires
            old(self).wf(),
        ensures
            final(self).wf(),
            old(self).same_except(final(self), CorePart::Fence),
            final(self).fence_part().queue_spec() == old(self).fence_part().queue_spec(),
            old(self).fence_part().released().len() == 0 ==> r is None && final(self).fence_part().released() == old(self).fence_part().released(),
            old(self).fence_part().released().len() > 0 ==> r == Some(old(self).fence_part().released()[0])
                && final(self).fence_part().released() == old(self).fence_part().released().drop_first(),
    {
        self.fence.pop_ready()
    }

    pub fn fence_is_enabled(&self) -> (r: bool)
        requires
            self.wf(),
        ensures
            r == self.fence_part().queue_spec().enabled_spec(),
    {
        self.fence.is_enabled()
    }

    /// Issue a DMA transfer of `bytes` bytes at `now`.
    pub fn dma_try_issue(&mut self, now: Cycle, bytes: u32) -> (r: Result<Ticket, DmaReject>)
        requires
            old(self).wf(),
        ensures
            final(self).wf(),
            old(self).same_except(final(self), CorePart::Dma),
            old(self).dma_part().queue_spec().issue_post(
                &final(self).dma_part().queue_spec(),
                now,
                (),
                bytes,
                SimpleTimedQueue::<()>::reject_view(r),
            ),
            final(self).dma_part().bytes_issued_spec() == (if r is Ok {
                sat_add(old(self).dma_part().bytes_issued_spec() as int, bytes as int)
            } else {
                old(self).dma_part().bytes_issued_spec()
            }),
            final(self).dma_part().completed_spec() == old(self).dma_part().completed_spec(),
            final(self).dma_part().bytes_completed_spec() == old(self).dma_part().bytes_completed_spec(),
            final(self).dma_part().mmio_base_spec() == old(self).dma_part().mmio_base_spec(),
            final(self).dma_part().mmio_size_spec() == old(self).dma_part().mmio_size_spec(),
            final(self).dma_part().csrs() == old(self).dma_part().csrs(),
    {
        self.dma.try_issue(now, bytes)
    }

    pub fn dma_is_busy(&self) -> (r: bool)
        requires
            self.wf(),
        ensures
            r == (self.dma_part().queue_spec().enabled_spec() && self.dma_part().queue_spec().server_spec().outstanding_spec()
                > 0),
    {
        self.dma.is_busy()
    }

    pub fn dma_bytes_issued(&self) -> (r: u64)
        requires
            self.wf(),
        ensures
            r == self.dma_part().bytes_issued_spec(),
    {
        self.dma.bytes_issued()
    }

    pub fn dma_bytes_completed(&self) -> (r: u64)
        requires
            self.wf(),
        ensures
            r == self.dma_part().bytes_completed_spec(),
    {
        self.dma.bytes_completed()
    }

    pub fn dma_completed(&self) -> (r: u64)
        requires
            self.wf(),
        ensures
            r == self.dma_part().completed_spec(),
    {
        self.dma.completed()
    }

    pub fn dma_matches_mmio(&self, addr: u64) -> (r: bool)
        requires
            self.wf(),
        ensures
            r == (self.dma_part().queue_spec().enabled_spec() && self.dma_part().mmio_size_spec() != 0 && self.dma_part().mmio_base_spec()
                <= addr && (addr as int) < sat_add(
                self.dma_part().mmio_base_spec() as int,
                self.dma_part().mmio_size_spec() as int,
            )),
    {
        self.dma.matches_mmio(addr)
    }

    pub fn dma_matches_csr(&self, addr: u32) -> (r: bool)
        requires
            self.wf(),
        ensures
            r == (self.dma_part().queue_spec().enabled_spec() && self.dma_part().csrs().contains(addr)),
    {
        self.dma.matches_csr(addr)
    }

    /// Issue a tensor operation of `bytes` bytes at `now`.
    pub fn tensor_try_issue(&mut self, now: Cycle, bytes: u32) -> (r: Result<Ticket, TensorReject>)
        requires
            old(self).wf(),
        ensures
            final(self).wf(),
            old(self).same_except(final(self), CorePart::Tensor),
            old(self).tensor_part().queue_spec().issue_post(
                &final(self).tensor_part().queue_spec(),
                now,
                (),
                bytes,
                SimpleTimedQueue::<()>::reject_view(r),
            ),
            final(self).tensor_part().bytes_issued_spec() == (if r is Ok {
                sat_add(old(self).tensor_part().bytes_issued_spec() as int, bytes as int)
            } else {
                old(self).tensor_part().bytes_issued_spec()
            }),
            final(self).tensor_part().completed_spec() == old(self).tensor_part().completed_spec(),
            final(self).tensor_part().bytes_completed_spec() == old(self).tensor_part().bytes_completed_spec(),
            final(self).tensor_part().mmio_base_spec() == old(self).tensor_part().mmio_base_spec(),
            final(self).tensor_part().mmio_size_spec() == old(self).tensor_part().mmio_size_spec(),
            final(self).tensor_part().csrs() == old(self).tensor_part().csrs(),
    {
        self.tensor.try_issue(now, bytes)
    }

    pub fn tensor_is_busy(&self) -> (r: bool)
        requires
            self.wf(),
        ensures
            r == (self.tensor_part().queue_spec().enabled_spec() && self.tensor_part().queue_spec().server_spec().outstanding_spec()
                > 0),
    {
        self.tensor.is_busy()
    }

    pub fn tensor_bytes_issued(&self) -> (r: u64)
        requires
            self.wf(),
        ensures
            r == self.tensor_part().bytes_issued_spec(),
    {
        self.tensor.bytes_issued()
    }

    pub fn tensor_bytes_completed(&self) -> (r: u64)
        requires
            self.wf(),
        ensures
            r == self.tensor_part().bytes_completed_spec(),
    {
        self.tensor.bytes_completed()
    }

    pub fn tensor_completed(&self) -> (r: u64)
        requires
            self.wf(),
        ensures
            r == self.tensor_part().completed_spec(),
    {
        self.tensor.completed()
    }

    pub fn tensor_matches_mmio(&self, addr: u64) -> (r: bool)
        requires
            self.wf(),
        ensures
            r == (self.tensor_part().queue_spec().enabled_spec() && self.tensor_part().mmio_size_spec() != 0 && self.tensor_part().mmio_base_spec()
                <= addr && (addr as int) < sat_add(
                self.tensor_part().mmio_base_spec() as int,
                self.tensor_part().mmio_size_spec() as int,
            )),
    {
        self.tensor.matches_mmio(addr)
    }

    pub fn tensor_matches_csr(&self, addr: u32) -> (r: bool)
        requires
            self.wf(),
        ensures
            r == (self.tensor_part().queue_spec().enabled_spec() && self.tensor_part().csrs().contains(addr)),
    {
        self.tensor.matches_csr(addr)
    }

    /// Issue an operation on the `kind` unit at `now`.
    pub fn execute_issue(&mut self, now: Cycle, kind: ExecUnitKind, active_lanes: u32) -> (r: Result<Ticket, Backpressure<()>>)
        requires
            old(self).wf(),
        ensures
            final(self).wf(),
            old(self).same_except(final(self), CorePart::Execute),
            forall|k: ExecUnitKind| k != kind ==> #[trigger] final(self).execute_part().unit(k) == old(self).execute_part().unit(k),
            ({
                let s = old(self).execute_part().unit(kind);
                let p = final(self).execute_part().unit(kind);
                let size: u32 = if active_lanes >= 1 {
                    active_lanes
                } else {
                    1
                };
                &&& s.is_full() ==> (r matches Err(Backpressure::QueueFull { capacity, .. })
                    && capacity == s.cfg().queue_capacity && s.refused_full(&p))
                &&& !s.is_full() && s.is_warming(now) ==> (r matches Err(
                    Backpressure::Busy { available_at, .. },
                ) && available_at == s.warmup() && s.refused_busy(&p))
                &&& !s.is_full() && !s.is_warming(now) ==> (r matches Ok(t) && s.accepted(
                    &p,
                    now,
                    (),
                    size,
                    t,
                ))
            }),
    {
        self.execute.issue(now, kind, active_lanes)
    }

    pub fn execute_is_busy(&self, kind: ExecUnitKind) -> (r: bool)
        requires
            self.wf(),
        ensures
            r == (self.execute_part().unit(kind).outstanding_spec() > 0),
    {
        self.execute.is_busy(kind)
    }

    pub fn execute_suggest_retry(&self, kind: ExecUnitKind) -> (r: Cycle)
        requires
            self.wf(),
        ensures
            r == full_retry_for(self.execute_part().unit(kind)),
    {
        self.execute.suggest_retry(kind)
    }

    pub fn barrier_is_enabled(&self) -> (r: bool)
        requires
            self.wf(),
        ensures
            r == self.barrier_part().enabled_spec(),
    {
        self.barrier.is_enabled()
    }

    /// Warp `warp` arrives at barrier `barrier_id` at `now`.
    pub fn barrier_arrive(&mut self, now: Cycle, warp: usize, barrier_id: u32) -> (r: Option<Cycle>)
        requires
            old(self).wf(),
        ensures
            final(self).wf(),
            old(self).same_except(final(self), CorePart::Barrier),
            !old(self).barrier_part().enabled_spec() || warp >= old(self).barrier_part().warps() ==> r == Some(now)
                && final(self).barrier_part() == old(self).barrier_part(),
            old(self).barrier_part().enabled_spec() && warp < old(self).barrier_part().warps() ==> old(self).barrier_part().arrival(
                &final(self).barrier_part(),
                now,
                warp,
                barrier_id,
                r,
            ),
    {
        self.barrier.arrive(now, warp, barrier_id)
    }

    /// Release the warps whose barrier completes at `now`.
    pub fn barrier_tick(&mut self, now: Cycle) -> (r: Option<Vec<usize>>)
        requires
            old(self).wf(),
        ensures
            final(self).wf(),
            old(self).same_except(final(self), CorePart::Barrier),
            final(self).barrier_part().same_setup(&old(self).barrier_part()),
            !old(self).barrier_part().enabled_spec() ==> r is None && final(self).barrier_part() == old(self).barrier_part(),
            old(self).barrier_part().enabled_spec() ==> {
                let ids = payloads(old(self).barrier_part().queue().serviced_out(now));
                let rel = released_by(old(self).barrier_part().barriers(), ids);
                &&& old(self).barrier_part().queue().serviced(&final(self).barrier_part().queue(), now)
                &&& final(self).barrier_part().barriers() == drain_ids(old(self).barrier_part().barriers(), ids)
                &&& rel.len() == 0 ==> r is None && final(self).barrier_part().stat() == old(self).barrier_part().stat()
                &&& rel.len() > 0 ==> (r matches Some(v) && v@ == rel)
                &&& rel.len() > 0 ==> final(self).barrier_part().stat() == (BarrierSummary {
                    release_events: sat_add(old(self).barrier_part().stat().release_events as int, 1),
                    warps_released: sat_add(
                        old(self).barrier_part().stat().warps_released as int,
                        rel.len() as int,
                    ),
                    max_release_batch: max_spec(
                        old(self).barrier_part().stat().max_release_batch,
                        rel.len() as u64,
                    ),
                    ..old(self).barrier_part().stat()
                })
            },
    {
        self.barrier.tick(now)
    }

    pub fn barrier_stats(&self) -> (r: BarrierSummary)
        requires
            self.wf(),
        ensures
            r == self.barrier_part().stat(),
    {
        self.barrier.stats()
    }

    /// Reset the barrier counters.
    pub fn clear_barrier_stats(&mut self)
        requires
            old(self).wf(),
        ensures
            final(self).wf(),
            old(self).same_except(final(self), CorePart::Barrier),
            final(self).barrier_part().stat().is_zero(),
            final(self).barrier_part().same_setup(&old(self).barrier_part()),
            final(self).barrier_part().queue() == old(self).barrier_part().queue(),
            final(self).barrier_part().barriers() == old(self).barrier_part().barriers(),
    {
        self.barrier.clear_stats()
    }

    /// Issue a global-memory access to the load/store unit at `now`.
    pub fn lsu_issue_gmem(&mut self, now: Cycle, request: GmemRequest) -> (r: Result<LsuIssue, LsuReject>)
        requires
            old(self).wf(),
        ensures
            final(self).wf(),
            old(self).same_except(final(self), CorePart::Lsu),
            old(self).lsu_part().issued(&final(self).lsu_part(), now, LsuPayload::Gmem(request), r),
    {
        self.lsu.issue_gmem(now, request)
    }

    /// Issue a shared-memory access to the load/store unit at `now`.
    pub fn lsu_issue_smem(&mut self, now: Cycle, request: SmemRequest) -> (r: Result<LsuIssue, LsuReject>)
        requires
            old(self).wf(),
        ensures
            final(self).wf(),
            old(self).same_except(final(self), CorePart::Lsu),
            old(self).lsu_part().issued(&final(self).lsu_part(), now, LsuPayload::Smem(request), r),
    {
        self.lsu.issue_smem(now, request)
    }

    /// The load/store access ready at `now`, left in place.
    pub fn lsu_peek_ready(&mut self, now: Cycle) -> (r: Option<LsuPayload>)
        requires
            old(self).wf(),
        ensures
            final(self).wf(),
            old(self).same_except(final(self), CorePart::Lsu),
            old(self).lsu_part().same_setup(&final(self).lsu_part()),
            final(self).lsu_part().pending_global() == old(self).lsu_part().pending_global(),
            final(self).lsu_part().pending_shared() == old(self).lsu_part().pending_shared(),
            final(self).lsu_part().address_used() == old(self).lsu_part().address_used(),
            final(self).lsu_part().store_used() == old(self).lsu_part().store_used(),
            final(self).lsu_part().load_used() == old(self).lsu_part().load_used(),
            final(self).lsu_part().stat() == old(self).lsu_part().stat(),
            ({
                let nr = old(self).lsu_part().graph_spec().node_at(&old(self).lsu_part().issue_id() as int).next_ready(now);
                &&& nr is None ==> r is None
                &&& nr matches Some(x) ==> (r matches Some(p) && p.same_as(&x.payload))
            }),
    {
        self.lsu.peek_ready(now)
    }

    /// The load/store access ready at `now`, removed.
    pub fn lsu_take_ready(&mut self, now: Cycle) -> (r: Option<LsuCompletion<LsuPayload>>)
        requires
            old(self).wf(),
        ensures
            final(self).wf(),
            old(self).same_except(final(self), CorePart::Lsu),
            old(self).lsu_part().same_setup(&final(self).lsu_part()),
            final(self).lsu_part().address_used() == old(self).lsu_part().address_used(),
            final(self).lsu_part().store_used() == old(self).lsu_part().store_used(),
            final(self).lsu_part().load_used() == old(self).lsu_part().load_used(),
            ({
                let nr = old(self).lsu_part().graph_spec().node_at(&old(self).lsu_part().issue_id() as int).next_ready(now);
                &&& nr is None ==> r is None && final(self).lsu_part().stat() == old(self).lsu_part().stat()
                    && final(self).lsu_part().pending_global() == old(self).lsu_part().pending_global()
                    && final(self).lsu_part().pending_shared() == old(self).lsu_part().pending_shared()
                &&& nr matches Some(x) ==> {
                    &&& r == Some(LsuCompletion {
                        request: x.payload,
                        ticket_ready_at: x.ticket.ready(),
                        completed_at: now,
                    })
                    &&& final(self).lsu_part().stat() == old(self).lsu_part().stat().after_completion(x.payload.kind_spec())
                    &&& final(self).lsu_part().pending_global() == old(self).lsu_part().global_after(x.payload, false)
                    &&& final(self).lsu_part().pending_shared() == old(self).lsu_part().shared_after(x.payload, false)
                }
            }),
    {
        self.lsu.take_ready(now)
    }

    /// Give back the address and store-data entries of `payload`.
    pub fn lsu_release_issue_resources(&mut self, payload: &LsuPayload)
        requires
            old(self).wf(),
        ensures
            final(self).wf(),
            old(self).same_except(final(self), CorePart::Lsu),
            old(self).lsu_part().same_setup(&final(self).lsu_part()),
            final(self).lsu_part().graph_spec() == old(self).lsu_part().graph_spec(),
            final(self).lsu_part().pending_global() == old(self).lsu_part().pending_global(),
            final(self).lsu_part().pending_shared() == old(self).lsu_part().pending_shared(),
            final(self).lsu_part().stat() == old(self).lsu_part().stat(),
            final(self).lsu_part().load_used() == old(self).lsu_part().load_used(),
            final(self).lsu_part().address_used() == (if payload.address_spec() {
                usize_dec(old(self).lsu_part().address_used())
            } else {
                old(self).lsu_part().address_used()
            }),
            final(self).lsu_part().store_used() == (if payload.store_data_spec() {
                usize_dec(old(self).lsu_part().store_used())
            } else {
                old(self).lsu_part().store_used()
            }),
    {
        self.lsu.release_issue_resources(payload)
    }

    pub fn lsu_can_reserve_load_data(&self, payload: &LsuPayload) -> (r: bool)
        requires
            self.wf(),
        ensures
            r == (!payload.load_data_spec() || self.lsu_part().load_used() < self.lsu_part().res().load_data_entries),
    {
        self.lsu.can_reserve_load_data(payload)
    }

    /// Reserve a load-data entry for `payload` if it needs one.
    pub fn lsu_reserve_load_data(&mut self, payload: &LsuPayload) -> (r: bool)
        requires
            old(self).wf(),
        ensures
            final(self).wf(),
            old(self).same_except(final(self), CorePart::Lsu),
            old(self).lsu_part().same_setup(&final(self).lsu_part()),
            final(self).lsu_part().graph_spec() == old(self).lsu_part().graph_spec(),
            final(self).lsu_part().pending_global() == old(self).lsu_part().pending_global(),
            final(self).lsu_part().pending_shared() == old(self).lsu_part().pending_shared(),
            final(self).lsu_part().stat() == old(self).lsu_part().stat(),
            final(self).lsu_part().address_used() == old(self).lsu_part().address_used(),
            final(self).lsu_part().store_used() == old(self).lsu_part().store_used(),
            !payload.load_data_spec() ==> r && final(self).lsu_part().load_used() == old(self).lsu_part().load_used(),
            payload.load_data_spec() ==> r == (old(self).lsu_part().load_used() < old(self).lsu_part().res().load_data_entries),
            payload.load_data_spec() && r ==> final(self).lsu_part().load_used() == old(self).lsu_part().load_used() + 1,
            payload.load_data_spec() && !r ==> final(self).lsu_part().load_used() == old(self).lsu_part().load_used(),
    {
        self.lsu.reserve_load_data(payload)
    }

    /// Give back the load-data entry of `payload`.
    pub fn lsu_release_load_data(&mut self, payload: &LsuPayload)
        requires
            old(self).wf(),
        ensures
            final(self).wf(),
            old(self).same_except(final(self), CorePart::Lsu),
            old(self).lsu_part().same_setup(&final(self).lsu_part()),
            final(self).lsu_part().graph_spec() == old(self).lsu_part().graph_spec(),
            final(self).lsu_part().pending_global() == old(self).lsu_part().pending_global(),
            final(self).lsu_part().pending_shared() == old(self).lsu_part().pending_shared(),
            final(self).lsu_part().stat() == old(self).lsu_part().stat(),
            final(self).lsu_part().address_used() == old(self).lsu_part().address_used(),
            final(self).lsu_part().store_used() == old(self).lsu_part().store_used(),
            final(self).lsu_part().load_used() == (if payload.load_data_spec() {
                usize_dec(old(self).lsu_part().load_used())
            } else {
                old(self).lsu_part().load_used()
            }),
    {
        self.lsu.release_load_data(payload)
    }

    pub fn lsu_stats(&self) -> (r: LsuStats)
        requires
            self.wf(),
        ensures
            r == self.lsu_part().stat(),
    {
        self.lsu.stats()
    }

    /// Reset the load/store counters.
    pub fn clear_lsu_stats(&mut self)
        requires
            old(self).wf(),
        ensures
            final(self).wf(),
            old(self).same_except(final(self), CorePart::Lsu),
            old(self).lsu_part().same_setup(&final(self).lsu_part()),
            final(self).lsu_part().graph_spec() == old(self).lsu_part().graph_spec(),
            final(self).lsu_part().pending_global() == old(self).lsu_part().pending_global(),
            final(self).lsu_part().pending_shared() == old(self).lsu_part().pending_shared(),
            final(self).lsu_part().stat().is_zero(),
            final(self).lsu_part().address_used() == 0,
            final(self).lsu_part().store_used() == 0,
            final(self).lsu_part().load_used() == 0,
    {
        self.lsu.clear_stats()
    }

    /// Finished shared-memory requests waiting to be taken.
    pub fn pending_smem_completions(&self) -> (r: usize)
        ensures
            r == self.smem_part().completions_spec().len(),
    {
        self.smem.pending_completions()
    }

    /// A copy of the shared-memory statistics.
    pub fn smem_stats(&self) -> (r: SmemStats)
        ensures
            self.smem_part().stats_spec().same_counts(r),
    {
        self.smem.stats_copy()
    }

    /// Busy lanes and banks as of the last shared-memory sample.
    pub fn sample_smem_utilization(&mut self) -> (r: SmemUtilSample)
        requires
            old(self).wf(),
        ensures
            *final(self) == *old(self),
            r.lane_busy == old(self).smem_part().last_busy().0,
            r.bank_busy == old(self).smem_part().last_busy().1,
            r.lane_total == at_least_one(old(self).smem_part().config_spec().num_lanes as int),
            r.bank_total == banks_of(old(self).smem_part().config_spec()),
    {
        self.smem.sample_utilization(&mut self.graph)
    }

    /// Take every global-memory completion waiting for core `core_id`,
    /// oldest first (none without a cluster memory).
    pub fn collect_cluster_gmem_completions(&mut self, core_id: usize) -> (r: Vec<GmemCompletion>)
        requires
            old(self).wf(),
        ensures
            final(self).wf(),
            old(self).same_except(final(self), CorePart::Cluster),
            old(self).cluster_part() is None ==> r@.len() == 0 && final(self).cluster_part() is None,
            old(self).cluster_part() matches Some(c) ==> (final(self).cluster_part() matches Some(d)
                && drained_core(c, d, core_id as int, r@)),
    {
        match &mut self.cluster_gmem {
            Some(cluster) => drain_core(cluster, core_id),
            None => Vec::new(),
        }
    }

    /// Offer `request` from core `core_id` to the cluster memory at `now`;
    /// without one it is refused as full, to retry a cycle later.
    pub fn cluster_gmem_issue(&mut self, core_id: usize, now: Cycle, request: GmemRequest) -> (r: GmemResult<GmemIssue>)
        requires
            old(self).wf(),
        ensures
            final(self).wf(),
            old(self).same_except(final(self), CorePart::Cluster),
            old(self).cluster_part() is None ==> final(self).cluster_part() is None && r == Err::<GmemIssue, GmemReject>(
                GmemReject { request, retry_at: sat_add(now as int, 1), reason: GmemRejectReason::QueueFull },
            ),
            old(self).cluster_part() matches Some(c) ==> (final(self).cluster_part() matches Some(d)
                && cluster_issued(c, d, core_id, now, request, r)),
    {
        match &mut self.cluster_gmem {
            Some(cluster) => cluster.issue(core_id, now, request),
            None => Err(
                GmemReject {
                    request,
                    retry_at: now.saturating_add(1),
                    reason: GmemRejectReason::QueueFull,
                },
            ),
        }
    }

    /// Core `core_id`'s global-memory counters (zero without a cluster
    /// memory).
    pub fn cluster_gmem_stats(&self, core_id: usize) -> (r: GmemStats)
        ensures
            self.cluster_part() is None ==> r@ == zero_counters(),
            self.cluster_part() matches Some(c) ==> (core_id < c.core_count() ==> r@ == c.core_stat(core_id as int))
                && (core_id >= c.core_count() ==> r@ == zero_counters()),
    {
        match &self.cluster_gmem {
            Some(cluster) => cluster.stats(core_id),
            None => GmemStats::default(),
        }
    }

    /// Reset core `core_id`'s global-memory counters.
    pub fn cluster_gmem_clear_stats(&mut self, core_id: usize)
        requires
            old(self).wf(),
        ensures
            final(self).wf(),
            old(self).same_except(final(self), CorePart::Cluster),
            old(self).cluster_part() is None ==> final(self).cluster_part() is None,
            old(self).cluster_part() matches Some(c) ==> (final(self).cluster_part() matches Some(d)
                && cluster_cleared(c, d, core_id)),
    {
        match &mut self.cluster_gmem {
            Some(cluster) => cluster.clear_stats(core_id),
            None => {},
        }
    }

    /// Counters of the L0 layers, the L1 layers and the L2 of the cluster
    /// memory (all zero without one).
    pub fn cluster_gmem_hierarchy_stats_per_level(&self) -> (r: (GmemStats, GmemStats, GmemStats))
        ensures
            self.cluster_part() is None ==> r.0@ == zero_counters() && r.1@ == zero_counters() && r.2@
                == zero_counters(),
            self.cluster_part() matches Some(c) ==> {
                &&& r.0@ == fold_counters(zero_counters(), layer_counters(c.hierarchy_spec().l0@))
                &&& r.1@ == fold_counters(zero_counters(), layer_counters(c.hierarchy_spec().l1@))
                &&& r.2@ == c.hierarchy_spec().l2.counters()
            },
    {
        match &self.cluster_gmem {
            Some(cluster) => cluster.hierarchy_stats_per_level(),
            None => (GmemStats::default(), GmemStats::default(), GmemStats::default()),
        }
    }
}

} // verus!
