//! The shared-memory pipeline: per-lane prealign buffers, an optional
//! full-serialization gate, read and write crossbars with round-robin
//! arbitration, banked SRAM ports (separate ones for Gemmini traffic), and
//! read/write completion tails.

use crate::timeflow::graph::FlowGraph;
use crate::timeflow::smem::lanes::{
    active_lane_count_spec, build_lane_ops, bytes_per_lane_spec, explicit_addrs, lane_plan_spec,
    lane_targets_spec, listed_lane, min_int, one_or, op_from_plan, sat_add_usize, splits_wide_lane,
    LaneOp,
};
use crate::timeflow::smem::arbiter::{
    all_bits, clamp_inputs, client_priority_spec, has_bit, lemma_all_bits_has, lemma_has_bit_and, lemma_has_bit_or, lemma_has_bit_zero,
    lemma_top_bit, lemma_top_bit_found, top_bit,
};
use crate::timeflow::smem::ports::PortGroup;
use crate::timeflow::smem::{
    at_least_one, MemType, SmemClientKind, SmemCompletion, SmemFlowConfig, SmemIssue, SmemReject,
    SmemRequest, SmemSerialization, SmemStats, SmemUtilSample,
};
use crate::timeflow::types::{CoreFlowPayload, RejectReason, RejectWith};
use crate::timeq::{max_spec, max_u64, sat_add, sat_sub, AcceptStatus, Cycle, ServerConfig, ServiceRequest, ServiceResult, Ticket};
use std::collections::VecDeque;
use vstd::prelude::*;

verus! {

/// Progress of a request that was accepted and has not completed yet.
#[derive(Debug)]
pub struct InflightRequestState {
    pub request: SmemRequest,
    pub ops_total: usize,
    pub ops_completed: usize,
    pub max_bank_ready_at: Cycle,
    pub tail_enqueued: bool,
}

pub struct SmemSubgraph {
    config: SmemFlowConfig,
    /// Finished requests, oldest first, for the caller to drain.
    pub completions: VecDeque<SmemCompletion>,
    total_inflight: u64,
    next_id: u64,
    pub stats: SmemStats,
    prealign: PortGroup<LaneOp>,
    serial_gate: PortGroup<LaneOp>,
    read_xbar_inputs: Vec<VecDeque<LaneOp>>,
    write_xbar_inputs: Vec<VecDeque<LaneOp>>,
    read_xbar_outputs: PortGroup<LaneOp>,
    write_xbar_outputs: PortGroup<LaneOp>,
    read_xbar_masks: Vec<u32>,
    write_xbar_masks: Vec<u32>,
    bank_read_ports: PortGroup<LaneOp>,
    bank_write_ports: PortGroup<LaneOp>,
    gemmini_read_ports: PortGroup<LaneOp>,
    gemmini_write_ports: PortGroup<LaneOp>,
    bank_read_rr: Vec<usize>,
    bank_write_rr: Vec<usize>,
    gemmini_read_rr: Vec<usize>,
    gemmini_write_rr: Vec<usize>,
    read_tail: PortGroup<SmemCompletion>,
    write_tail: PortGroup<SmemCompletion>,
    inflight: Vec<InflightRequestState>,
    bank_read_inflight: Vec<u64>,
    bank_write_inflight: Vec<u64>,
    gemmini_read_inflight: Vec<u64>,
    gemmini_write_inflight: Vec<u64>,
    last_lane_busy: usize,
    last_bank_busy: usize,
}

/// Operations waiting in the first `n` crossbar input queues (saturating).
pub open spec fn queued_upto(q: Seq<VecDeque<LaneOp>>, n: int) -> usize
    decreases n,
{
    if n <= 0 {
        0
    } else {
        sat_add_usize(queued_upto(q, n - 1) as int, q[n - 1]@.len() as int)
    }
}

/// The first `n` counters of `v`, summed with saturation.
pub open spec fn counters_upto(v: Seq<u64>, n: int) -> usize
    decreases n,
{
    if n <= 0 {
        0
    } else {
        sat_add_usize(counters_upto(v, n - 1) as int, v[n - 1] as int)
    }
}

/// `count` plus one when `busy`, saturating.
pub open spec fn bump(count: u64, busy: bool) -> u64 {
    if busy {
        sat_add(count as int, 1)
    } else {
        count
    }
}

/// Identifier an issued request carries: its own, or the next free one
/// when it has none (identifier 0).
pub open spec fn assigned_id(next: u64, id: u64) -> u64 {
    if id == 0 {
        next
    } else {
        id
    }
}

/// The next free identifier after issuing a request with identifier `id`.
pub open spec fn next_id_after(next: u64, id: u64) -> u64 {
    if id == 0 {
        sat_add(next as int, 1)
    } else {
        max_spec(next, sat_add(id as int, 1))
    }
}

pub open spec fn with_id(request: SmemRequest, id: u64) -> SmemRequest {
    SmemRequest { id, ..request }
}

/// Accesses among the first `n` of `plan` that enter prealign buffer `idx`
/// (lanes past the last buffer share the last one).
pub open spec fn prealign_demand(plan: Seq<(usize, u64, u32)>, last: int, idx: int, n: int) -> nat
    decreases n,
{
    if n <= 0 {
        0
    } else {
        prealign_demand(plan, last, idx, n - 1) + if min_int(plan[n - 1].0 as int, last) == idx {
            1nat
        } else {
            0nat
        }
    }
}

/// Accesses among the first `n` of `plan` whose address decodes to
/// `target` (bank, subbank).
pub open spec fn target_demand(
    config: SmemFlowConfig,
    plan: Seq<(usize, u64, u32)>,
    target: (usize, usize),
    n: int,
) -> nat
    decreases n,
{
    if n <= 0 {
        0
    } else {
        target_demand(config, plan, target, n - 1) + if config.decode_spec(plan[n - 1].1) == target {
            1nat
        } else {
            0nat
        }
    }
}

/// Accesses among the first `n` of `plan` that fall in bank `b`.
pub open spec fn bank_demand(config: SmemFlowConfig, plan: Seq<(usize, u64, u32)>, b: int, n: int) -> nat
    decreases n,
{
    if n <= 0 {
        0
    } else {
        bank_demand(config, plan, b, n - 1) + if config.decode_spec(plan[n - 1].1).0 == b {
            1nat
        } else {
            0nat
        }
    }
}

/// Per-bank counters after an access pattern: every bank it touches adds
/// its number of accesses (or one less, when counting conflicts),
/// saturating.
pub open spec fn pressure_added(
    config: SmemFlowConfig,
    plan: Seq<(usize, u64, u32)>,
    before: Seq<u64>,
    after: Seq<u64>,
    conflicts: bool,
) -> bool {
    &&& after.len() == before.len()
    &&& forall|b: int|
        0 <= b < before.len() ==> #[trigger] after[b] == {
            let c = bank_demand(config, plan, b, plan.len() as int);
            if c == 0 {
                before[b]
            } else {
                sat_add(
                    before[b] as int,
                    if conflicts {
                        c - 1
                    } else {
                        c as int
                    },
                )
            }
        }
}

/// Counters that issuing never touches are unchanged.
pub open spec fn completion_side_same(a: SmemStats, b: SmemStats) -> bool {
    &&& b.completed == a.completed
    &&& b.read_completed == a.read_completed
    &&& b.write_completed == a.write_completed
    &&& b.bytes_completed == a.bytes_completed
    &&& b.max_completion_queue == a.max_completion_queue
    &&& b.last_completion_cycle == a.last_completion_cycle
    &&& b.sample_cycles == a.sample_cycles
    &&& b.bank_busy_samples@ == a.bank_busy_samples@
    &&& b.bank_read_busy_samples@ == a.bank_read_busy_samples@
    &&& b.bank_write_busy_samples@ == a.bank_write_busy_samples@
}

/// Statistics after `issue` answered with `verdict` (`None`: accepted)
/// while `total` requests were in flight: a refusal counts as full or busy;
/// an acceptance counts the request, its bytes, the new number in flight
/// and the bank pressure of its accesses.
pub open spec fn stats_after_issue(
    a: SmemStats,
    b: SmemStats,
    config: SmemFlowConfig,
    request: SmemRequest,
    verdict: Option<(RejectReason, Cycle)>,
    total: u64,
) -> bool {
    let plan = lane_plan_spec(config, request);
    &&& completion_side_same(a, b)
    &&& match verdict {
        Some((reason, _)) => {
            &&& b.queue_full_rejects == if reason == RejectReason::QueueFull {
                sat_add(a.queue_full_rejects as int, 1)
            } else {
                a.queue_full_rejects
            }
            &&& b.busy_rejects == if reason == RejectReason::Busy {
                sat_add(a.busy_rejects as int, 1)
            } else {
                a.busy_rejects
            }
            &&& b.issued == a.issued
            &&& b.read_issued == a.read_issued
            &&& b.write_issued == a.write_issued
            &&& b.bytes_issued == a.bytes_issued
            &&& b.inflight == a.inflight
            &&& b.max_inflight == a.max_inflight
            &&& b.bank_attempts@ == a.bank_attempts@
            &&& b.bank_conflicts@ == a.bank_conflicts@
        },
        None => {
            &&& b.queue_full_rejects == a.queue_full_rejects
            &&& b.busy_rejects == a.busy_rejects
            &&& b.issued == sat_add(a.issued as int, 1)
            &&& b.read_issued == if request.is_store {
                a.read_issued
            } else {
                sat_add(a.read_issued as int, 1)
            }
            &&& b.write_issued == if request.is_store {
                sat_add(a.write_issued as int, 1)
            } else {
                a.write_issued
            }
            &&& b.bytes_issued == sat_add(a.bytes_issued as int, request.bytes as int)
            &&& b.inflight == sat_add(total as int, 1)
            &&& b.max_inflight == max_spec(a.max_inflight, sat_add(total as int, 1))
            &&& pressure_added(config, plan, a.bank_attempts@, b.bank_attempts@, false)
            &&& pressure_added(config, plan, a.bank_conflicts@, b.bank_conflicts@, true)
        },
    }
}

/// Number of stores among `s`.
pub open spec fn stores_among(s: Seq<SmemCompletion>) -> nat
    decreases s.len(),
{
    if s.len() == 0 {
        0
    } else {
        stores_among(s.drop_last()) + if s.last().request.is_store {
            1nat
        } else {
            0nat
        }
    }
}

/// Bytes of the requests of `s`.
pub open spec fn bytes_among(s: Seq<SmemCompletion>) -> nat
    decreases s.len(),
{
    if s.len() == 0 {
        0
    } else {
        bytes_among(s.drop_last()) + s.last().request.bytes as nat
    }
}

pub proof fn lemma_stores_bounded(s: Seq<SmemCompletion>)
    ensures
        stores_among(s) <= s.len(),
    decreases s.len(),
{
    if s.len() > 0 {
        lemma_stores_bounded(s.drop_last());
    }
}

/// Statistics after the requests `added` completed at `now`, leaving
/// `total_after` in flight: completions, reads, writes and bytes are
/// counted (saturating), the number in flight is refreshed and `now`
/// becomes the last completion cycle; the issue-side counters stay.
pub open spec fn stats_after_finishing(
    a: SmemStats,
    b: SmemStats,
    added: Seq<SmemCompletion>,
    now: Cycle,
    total_after: u64,
) -> bool {
    let k = added.len();
    let st = stores_among(added);
    &&& b.completed == sat_add(a.completed as int, k as int)
    &&& b.write_completed == sat_add(a.write_completed as int, st as int)
    &&& b.read_completed == sat_add(a.read_completed as int, k - st)
    &&& b.bytes_completed == sat_add(a.bytes_completed as int, bytes_among(added) as int)
    &&& b.inflight == if k > 0 {
        total_after
    } else {
        a.inflight
    }
    &&& b.last_completion_cycle == if k > 0 {
        Some(now)
    } else {
        a.last_completion_cycle
    }
    &&& b.issued == a.issued
    &&& b.read_issued == a.read_issued
    &&& b.write_issued == a.write_issued
    &&& b.bytes_issued == a.bytes_issued
    &&& b.queue_full_rejects == a.queue_full_rejects
    &&& b.busy_rejects == a.busy_rejects
    &&& b.max_inflight == a.max_inflight
    &&& b.sample_cycles == a.sample_cycles
    &&& b.bank_busy_samples@ == a.bank_busy_samples@
    &&& b.bank_read_busy_samples@ == a.bank_read_busy_samples@
    &&& b.bank_write_busy_samples@ == a.bank_write_busy_samples@
    &&& b.bank_attempts@ == a.bank_attempts@
    &&& b.bank_conflicts@ == a.bank_conflicts@
}

/// The access plan does not depend on the request's identifier.
pub proof fn lemma_plan_ignores_id(config: SmemFlowConfig, request: SmemRequest, id: u64)
    ensures
        lane_plan_spec(config, with_id(request, id)) == lane_plan_spec(config, request),
{
    let r2 = with_id(request, id);
    assert(explicit_addrs(r2) == explicit_addrs(request));
    assert(active_lane_count_spec(config, r2) == active_lane_count_spec(config, request));
    assert forall|i: int| #[trigger] listed_lane(r2, i) == listed_lane(request, i) by {}
    assert(lane_targets_spec(config, r2) =~= lane_targets_spec(config, request));
    assert(bytes_per_lane_spec(config, r2) == bytes_per_lane_spec(config, request));
    assert(splits_wide_lane(config, r2) == splits_wide_lane(config, request));
    assert(lane_plan_spec(config, r2) =~= lane_plan_spec(config, request));
}

/// Answer of the prealign buffers `buffers`, from buffer `i` on, to the
/// accesses of `plan`: the first buffer without room for its accesses
/// refuses as full until the next cycle; the first still warming up refuses
/// as busy until its warm-up ends.
pub open spec fn prealign_verdict(
    buffers: PortGroup<LaneOp>,
    plan: Seq<(usize, u64, u32)>,
    now: Cycle,
    i: int,
) -> Option<(RejectReason, Cycle)>
    decreases buffers.len_spec() - i,
{
    if i < 0 || i >= buffers.len_spec() {
        None
    } else if prealign_demand(plan, buffers.len_spec() - 1, i, plan.len() as int) > buffers.at(
        i,
    ).cfg().queue_capacity - buffers.at(i).outstanding_spec() {
        Some((RejectReason::QueueFull, sat_add(now as int, 1)))
    } else if !buffers.at(i).is_full() && buffers.at(i).is_warming(now) {
        Some((RejectReason::Busy, buffers.at(i).warmup()))
    } else {
        prealign_verdict(buffers, plan, now, i + 1)
    }
}

proof fn lemma_prealign_verdict_retry(buffers: PortGroup<LaneOp>, plan: Seq<(usize, u64, u32)>, now: Cycle, i: int)
    ensures
        prealign_verdict(buffers, plan, now, i) matches Some((reason, retry)) ==> {
            &&& reason == RejectReason::QueueFull ==> retry == sat_add(now as int, 1)
            &&& reason == RejectReason::Busy ==> retry >= sat_add(now as int, 1)
        },
    decreases buffers.len_spec() - i,
{
    if 0 <= i < buffers.len_spec() {
        lemma_prealign_verdict_retry(buffers, plan, now, i + 1);
    }
}

/// When no prealign buffer from `i` on refuses the plan, each of them has
/// room for its share of the accesses and is not warming up.
proof fn lemma_prealign_verdict_none(buffers: PortGroup<LaneOp>, plan: Seq<(usize, u64, u32)>, now: Cycle, i: int)
    requires
        0 <= i,
        prealign_verdict(buffers, plan, now, i) is None,
    ensures
        forall|j: int|
            i <= j < buffers.len_spec() ==> #[trigger] prealign_demand(plan, buffers.len_spec() - 1, j, plan.len() as int)
                <= buffers.at(j).cfg().queue_capacity - buffers.at(j).outstanding_spec() && !(!buffers.at(j).is_full()
                && buffers.at(j).is_warming(now)),
    decreases buffers.len_spec() - i,
{
    if i < buffers.len_spec() {
        lemma_prealign_verdict_none(buffers, plan, now, i + 1);
    }
}

/// Prealign buffers from `i` on that are empty, not warming and deep
/// enough for their share of the plan refuse nothing.
proof fn lemma_prealign_verdict_room(buffers: PortGroup<LaneOp>, plan: Seq<(usize, u64, u32)>, now: Cycle, i: int)
    requires
        0 <= i,
        forall|j: int|
            i <= j < buffers.len_spec() ==> (#[trigger] buffers.at(j)).outstanding_spec() == 0 && !buffers.at(j).is_warming(now)
                && prealign_demand(plan, buffers.len_spec() - 1, j, plan.len() as int) <= buffers.at(j).cfg().queue_capacity,
    ensures
        prealign_verdict(buffers, plan, now, i) is None,
    decreases buffers.len_spec() - i,
{
    if i < buffers.len_spec() {
        assert(buffers.at(i).outstanding_spec() == 0);
        lemma_prealign_verdict_room(buffers, plan, now, i + 1);
    }
}

/// Accesses of a prefix of the plan entering a buffer are no more than
/// those of a longer prefix.
proof fn lemma_prealign_demand_mono(plan: Seq<(usize, u64, u32)>, last: int, idx: int, k: int, n: int)
    requires
        0 <= k <= n,
    ensures
        prealign_demand(plan, last, idx, k) <= prealign_demand(plan, last, idx, n),
    decreases n - k,
{
    if k < n {
        lemma_prealign_demand_mono(plan, last, idx, k, n - 1);
    }
}

/// The first `n` values of `s`, summed with saturation.
pub open spec fn saturating_total(s: Seq<int>, n: int) -> usize
    decreases n,
{
    if n <= 0 {
        0
    } else {
        sat_add_usize(saturating_total(s, n - 1) as int, s[n - 1])
    }
}

/// Number of banks of a configuration (at least one).
pub open spec fn banks_of(config: SmemFlowConfig) -> int {
    at_least_one(config.num_banks as int)
}

/// Read ports per subbank.
pub open spec fn read_ports_of(config: SmemFlowConfig) -> int {
    match config.mem_type {
        MemType::TwoPort => 1,
        MemType::TwoReadOneWrite => 2,
    }
}

/// Number of full-serialization gates: one when fully serialized.
pub open spec fn gates_of(config: SmemFlowConfig) -> int {
    if config.serialization == SmemSerialization::FullySerialized {
        1
    } else {
        0
    }
}

/// The configurations the model can be built from: the lane count fits
/// the 32-bit byte arithmetic of lane splitting, and the flat bank-port
/// tables fit in memory.
pub open spec fn buildable(config: SmemFlowConfig) -> bool {
    &&& config.num_lanes <= u32::MAX
    &&& banks_of(config) * config.active_subbanks_spec() * 2 <= usize::MAX
}

pub proof fn lemma_flat_index(b: int, s: int, p: int, nb: int, ns: int, np: int)
    requires
        0 <= b < nb,
        0 <= s < ns,
        0 <= p < np,
    ensures
        0 <= b * ns + s < nb * ns,
        0 <= (b * ns + s) * np + p < nb * ns * np,
{
    assert(0 <= b * ns + s < nb * ns) by (nonlinear_arith)
        requires
            0 <= b < nb,
            0 <= s < ns,
    ;
    let g = b * ns + s;
    assert(0 <= g * np + p < (nb * ns) * np) by (nonlinear_arith)
        requires
            0 <= g < nb * ns,
            0 <= p < np,
    ;
}

pub proof fn lemma_product_bounds(nb: int, ns: int, np: int)
    requires
        nb >= 1,
        ns >= 1,
        1 <= np <= 2,
        nb * ns * 2 <= usize::MAX,
    ensures
        nb * ns <= usize::MAX,
        nb * ns * np <= usize::MAX,
        nb * ns >= 1,
{
    assert(nb * ns >= 1 && nb * ns * np <= nb * ns * 2 && nb * ns <= nb * ns * 2) by (nonlinear_arith)
        requires
            nb >= 1,
            ns >= 1,
            1 <= np <= 2,
    ;
}

/// `n` zero-valued counters or cursors.
fn zero_usizes(n: usize) -> (r: Vec<usize>)
    ensures
        r@.len() == n,
        forall|i: int| 0 <= i < n ==> #[trigger] r@[i] == 0,
{
    let mut v: Vec<usize> = Vec::new();
    while v.len() < n
        invariant
            v@.len() <= n,
            forall|i: int| 0 <= i < v@.len() ==> #[trigger] v@[i] == 0,
        decreases n - v@.len(),
    {
        v.push(0);
    }
    v
}

fn zero_u64s(n: usize) -> (r: Vec<u64>)
    ensures
        r@.len() == n,
        forall|i: int| 0 <= i < n ==> #[trigger] r@[i] == 0,
{
    let mut v: Vec<u64> = Vec::new();
    while v.len() < n
        invariant
            v@.len() <= n,
            forall|i: int| 0 <= i < v@.len() ==> #[trigger] v@[i] == 0,
        decreases n - v@.len(),
    {
        v.push(0);
    }
    v
}

fn empty_queues(n: usize) -> (r: Vec<VecDeque<LaneOp>>)
    ensures
        r@.len() == n,
        forall|i: int| 0 <= i < n ==> (#[trigger] r@[i])@.len() == 0,
{
    let mut v: Vec<VecDeque<LaneOp>> = Vec::new();
    while v.len() < n
        invariant
            v@.len() <= n,
            forall|i: int| 0 <= i < v@.len() ==> (#[trigger] v@[i])@.len() == 0,
        decreases n - v@.len(),
    {
        v.push(VecDeque::new());
    }
    v
}

fn filled_masks(n: usize, mask: u32) -> (r: Vec<u32>)
    ensures
        r@.len() == n,
        forall|i: int| 0 <= i < n ==> #[trigger] r@[i] == mask,
{
    let mut v: Vec<u32> = Vec::new();
    while v.len() < n
        invariant
            v@.len() <= n,
            forall|i: int| 0 <= i < v@.len() ==> #[trigger] v@[i] == mask,
        decreases n - v@.len(),
    {
        v.push(mask);
    }
    v
}

/// A stage server's configuration: the given latency, throughput and
/// depth (at least one each), unbounded completions per cycle, no warm-up.
pub open spec fn stage_spec(base_latency: Cycle, bytes_per_cycle: u32, queue_capacity: usize) -> ServerConfig {
    ServerConfig {
        base_latency,
        bytes_per_cycle: if bytes_per_cycle == 0 {
            1
        } else {
            bytes_per_cycle
        },
        queue_capacity: if queue_capacity == 0 {
            1
        } else {
            queue_capacity
        },
        completions_per_cycle: u32::MAX,
        warmup_latency: 0,
    }
}

/// A server configuration with unbounded completions per cycle.
fn stage_config(base_latency: Cycle, bytes_per_cycle: u32, queue_capacity: usize) -> (r: ServerConfig)
    ensures
        r == stage_spec(base_latency, bytes_per_cycle, queue_capacity),
        r.base_latency == base_latency,
        r.bytes_per_cycle == one_or(bytes_per_cycle as usize) as u32,
        r.queue_capacity == one_or(queue_capacity),
        r.completions_per_cycle == u32::MAX,
        r.warmup_latency == 0,
        r.valid(),
{
    ServerConfig {
        base_latency,
        bytes_per_cycle: if bytes_per_cycle == 0 {
            1
        } else {
            bytes_per_cycle
        },
        queue_capacity: if queue_capacity == 0 {
            1
        } else {
            queue_capacity
        },
        completions_per_cycle: u32::MAX,
        warmup_latency: 0,
    }
}

impl SmemSubgraph {
    pub closed spec fn config_spec(&self) -> SmemFlowConfig {
        self.config
    }

    /// Every stage of `self` is empty, each of its servers just built from
    /// the stage's configuration in `c`, and the crossbar input queues are
    /// empty.
    pub closed spec fn stages_fresh(&self, c: SmemFlowConfig) -> bool {
        let depth = c.port_queue_depth;
        &&& self.prealign.all_fresh(stage_spec(c.prealign_latency, c.prealign_bytes_per_cycle, c.prealign_buf_depth))
        &&& self.serial_gate.all_fresh(stage_spec(0, 1, depth))
        &&& self.read_xbar_outputs.all_fresh(stage_spec(c.crossbar_latency, c.crossbar_bytes_per_cycle, depth))
        &&& self.write_xbar_outputs.all_fresh(stage_spec(c.crossbar_latency, c.crossbar_bytes_per_cycle, depth))
        &&& self.bank_read_ports.all_fresh(stage_spec(c.port_latency_read, c.bank_read_bytes_per_cycle, depth))
        &&& self.gemmini_read_ports.all_fresh(stage_spec(c.port_latency_read, c.bank_read_bytes_per_cycle, depth))
        &&& self.bank_write_ports.all_fresh(stage_spec(c.port_latency_write, c.bank_write_bytes_per_cycle, depth))
        &&& self.gemmini_write_ports.all_fresh(stage_spec(c.port_latency_write, c.bank_write_bytes_per_cycle, depth))
        &&& self.read_tail.all_fresh(
            stage_spec(sat_add(c.base_overhead as int, c.read_extra as int), c.tail_bytes_per_cycle, c.completion_queue_depth),
        )
        &&& self.write_tail.all_fresh(stage_spec(c.base_overhead, u32::MAX, c.completion_queue_depth))
        &&& forall|i: int| 0 <= i < self.read_xbar_inputs@.len() ==> (#[trigger] self.read_xbar_inputs@[i])@.len() == 0
        &&& forall|i: int| 0 <= i < self.write_xbar_inputs@.len() ==> (#[trigger] self.write_xbar_inputs@[i])@.len() == 0
        &&& self.inflight@.len() == 0
    }

    /// A pipeline whose stages are just built, with nothing in flight,
    /// accepts a request that is not the Gemmini's, has accesses, and
    /// whose share for each prealign buffer fits its depth, as long as one
    /// request may be in flight.
    pub proof fn lemma_fresh_accepts(&self, request: SmemRequest, now: Cycle)
        requires
            self.wf(),
            self.stages_fresh(self.config_spec()),
            self.inflight_total() == 0,
            self.config_spec().max_outstanding > 0,
            request.client != SmemClientKind::Gemmini,
            lane_plan_spec(self.config_spec(), request).len() > 0,
            forall|j: int|
                0 <= j < self.prealign_spec().len_spec() ==> #[trigger] prealign_demand(
                    lane_plan_spec(self.config_spec(), request),
                    self.prealign_spec().len_spec() - 1,
                    j,
                    lane_plan_spec(self.config_spec(), request).len() as int,
                ) <= (if self.config_spec().prealign_buf_depth == 0 {
                    1
                } else {
                    self.config_spec().prealign_buf_depth
                }),
        ensures
            self.issue_verdict(request, now) is None,
    {
        let plan = lane_plan_spec(self.config, request);
        let cfg = stage_spec(self.config.prealign_latency, self.config.prealign_bytes_per_cycle, self.config.prealign_buf_depth);
        assert forall|j: int| 0 <= j < self.prealign.len_spec() implies (#[trigger] self.prealign.at(j)).outstanding_spec() == 0
            && !self.prealign.at(j).is_warming(now) && prealign_demand(plan, self.prealign.len_spec() - 1, j, plan.len() as int)
            <= self.prealign.at(j).cfg().queue_capacity by {
            assert(self.prealign.at(j).fresh(cfg));
            assert(prealign_demand(
                lane_plan_spec(self.config_spec(), request),
                self.prealign_spec().len_spec() - 1,
                j,
                lane_plan_spec(self.config_spec(), request).len() as int,
            ) <= (if self.config_spec().prealign_buf_depth == 0 {
                1
            } else {
                self.config_spec().prealign_buf_depth
            }));
        }
        lemma_prealign_verdict_room(self.prealign, plan, now, 0);
    }

    /// On a pipeline whose stages are just built, prealign buffer `i` is
    /// empty, not warming up, and holds as many accesses as the
    /// configured depth.
    pub proof fn lemma_fresh_prealign(&self, i: int, now: Cycle)
        requires
            self.wf(),
            self.stages_fresh(self.config_spec()),
            0 <= i < self.prealign_spec().len_spec(),
        ensures
            self.prealign_spec().at(i).outstanding_spec() == 0,
            !self.prealign_spec().at(i).is_warming(now),
            self.prealign_spec().at(i).cfg() == stage_spec(
                self.config_spec().prealign_latency,
                self.config_spec().prealign_bytes_per_cycle,
                self.config_spec().prealign_buf_depth,
            ),
    {
        assert(self.prealign.at(i).fresh(stage_spec(self.config.prealign_latency, self.config.prealign_bytes_per_cycle, self.config.prealign_buf_depth)));
    }

    /// Requests accepted and not yet completed.
    pub closed spec fn inflight_total(&self) -> u64 {
        self.total_inflight
    }

    /// Identifier the next request without one receives.
    pub closed spec fn next_id_spec(&self) -> u64 {
        self.next_id
    }

    pub closed spec fn stats_spec(&self) -> SmemStats {
        self.stats
    }

    pub closed spec fn completions_spec(&self) -> Seq<SmemCompletion> {
        self.completions@
    }

    /// Busy lanes and banks seen by the last sample.
    pub closed spec fn last_busy(&self) -> (usize, usize) {
        (self.last_lane_busy, self.last_bank_busy)
    }

    /// Bank `b` holds a read (or write) in progress.
    pub closed spec fn bank_busy_reading(&self, b: int) -> bool {
        self.bank_read_inflight@[b] > 0 || self.gemmini_read_inflight@[b] > 0
    }

    pub closed spec fn bank_busy_writing(&self, b: int) -> bool {
        self.bank_write_inflight@[b] > 0 || self.gemmini_write_inflight@[b] > 0
    }

    /// Operations somewhere in the pipeline: in the prealign buffers, the
    /// serialization gate, the crossbar queues and outputs, the banks and
    /// the completion tails (saturating sums).
    pub closed spec fn lanes_busy_now(&self) -> usize {
        let stages = seq![
            self.prealign.outstanding_upto(self.prealign.len_spec() as int) as int,
            self.serial_gate.outstanding_upto(self.serial_gate.len_spec() as int) as int,
            sat_add_usize(
                queued_upto(self.read_xbar_inputs@, self.read_xbar_inputs@.len() as int) as int,
                queued_upto(self.write_xbar_inputs@, self.write_xbar_inputs@.len() as int) as int,
            ) as int,
            self.read_xbar_outputs.outstanding_upto(self.read_xbar_outputs.len_spec() as int) as int,
            self.write_xbar_outputs.outstanding_upto(self.write_xbar_outputs.len_spec() as int) as int,
            self.read_tail.outstanding_upto(self.read_tail.len_spec() as int) as int,
            self.write_tail.outstanding_upto(self.write_tail.len_spec() as int) as int,
            counters_upto(self.bank_read_inflight@, self.bank_read_inflight@.len() as int) as int,
            counters_upto(self.bank_write_inflight@, self.bank_write_inflight@.len() as int) as int,
            counters_upto(self.gemmini_read_inflight@, self.gemmini_read_inflight@.len() as int) as int,
            counters_upto(self.gemmini_write_inflight@, self.gemmini_write_inflight@.len() as int) as int,
        ];
        saturating_total(stages, stages.len() as int)
    }

    /// Number of the first `n` banks with a read or a write in progress.
    pub closed spec fn busy_banks_upto(&self, n: int) -> usize
        decreases n,
    {
        if n <= 0 {
            0
        } else {
            sat_add_usize(
                self.busy_banks_upto(n - 1) as int,
                if self.bank_busy_reading(n - 1) || self.bank_busy_writing(n - 1) {
                    1int
                } else {
                    0int
                },
            )
        }
    }

    /// Everything but the pipeline stages is the same in `self` and `other`.
    pub closed spec fn same_accounting(&self, other: &Self) -> bool {
        &&& other.config == self.config
        &&& other.completions == self.completions
        &&& other.total_inflight == self.total_inflight
        &&& other.next_id == self.next_id
        &&& other.stats == self.stats
        &&& other.inflight == self.inflight
        &&& other.last_lane_busy == self.last_lane_busy
        &&& other.last_bank_busy == self.last_bank_busy
    }

    /// Free entries of the Gemmini read (or write) ports of a bank and
    /// subbank (clamped to the configured ones).
    pub closed spec fn gemmini_free(&self, is_store: bool, target: (usize, usize)) -> int {
        let ns = self.config.active_subbanks_spec() as int;
        let b = min_int(target.0 as int, banks_of(self.config) - 1);
        let sb = min_int(target.1 as int, ns - 1);
        let g = b * ns + sb;
        if is_store {
            self.gemmini_write_ports.free_upto(g, 1) as int
        } else {
            let rp = read_ports_of(self.config);
            self.gemmini_read_ports.free_upto(g * rp, rp) as int
        }
    }

    /// Some bank and subbank that `plan` targets lacks Gemmini port room for
    /// all of its accesses.
    pub closed spec fn gemmini_short(&self, is_store: bool, plan: Seq<(usize, u64, u32)>) -> bool {
        exists|j: int|
            0 <= j < plan.len() && #[trigger] target_demand(
                self.config,
                plan,
                self.config.decode_spec(plan[j].1),
                plan.len() as int,
            ) > self.gemmini_free(is_store, self.config.decode_spec(plan[j].1))
    }

    /// How `issue` answers `request` at `now`: `None` when it accepts it,
    /// else the reason and the retry cycle. Too many requests in flight, or
    /// no room in the entry buffers of the request's accesses (the Gemmini
    /// bank ports, or the prealign buffers), refuse it as full; a request
    /// without accesses, or a warming prealign buffer, as busy.
    pub closed spec fn issue_verdict(&self, request: SmemRequest, now: Cycle) -> Option<(RejectReason, Cycle)> {
        let plan = lane_plan_spec(self.config, request);
        if self.total_inflight >= self.config.max_outstanding {
            Some((RejectReason::QueueFull, sat_add(now as int, 1)))
        } else if plan.len() == 0 {
            Some((RejectReason::Busy, sat_add(now as int, 1)))
        } else if request.client == SmemClientKind::Gemmini {
            if self.gemmini_short(request.is_store, plan) {
                Some((RejectReason::QueueFull, sat_add(now as int, 1)))
            } else {
                None
            }
        } else {
            prealign_verdict(self.prealign, plan, now, 0)
        }
    }

    /// With `max_outstanding` requests or more in flight, a request is
    /// refused as full, to be retried at the next cycle.
    pub proof fn lemma_verdict_when_full(&self, request: SmemRequest, now: Cycle)
        requires
            self.inflight_total() >= self.config_spec().max_outstanding,
        ensures
            self.issue_verdict(request, now) == Some((RejectReason::QueueFull, sat_add(now as int, 1))),
    {
    }

    /// Below the in-flight limit, a request without accesses is refused as
    /// busy, to be retried at the next cycle.
    pub proof fn lemma_verdict_without_accesses(&self, request: SmemRequest, now: Cycle)
        requires
            self.inflight_total() < self.config_spec().max_outstanding,
            lane_plan_spec(self.config_spec(), request).len() == 0,
        ensures
            self.issue_verdict(request, now) == Some((RejectReason::Busy, sat_add(now as int, 1))),
    {
    }

    /// A refusal as full is retried at the next cycle; a refusal as busy
    /// no earlier than the next cycle.
    pub proof fn lemma_verdict_retry(&self, request: SmemRequest, now: Cycle)
        ensures
            self.issue_verdict(request, now) matches Some((reason, retry)) ==> {
                &&& reason == RejectReason::QueueFull ==> retry == sat_add(now as int, 1)
                &&& reason == RejectReason::Busy ==> retry >= sat_add(now as int, 1)
            },
    {
        let plan = lane_plan_spec(self.config, request);
        lemma_prealign_verdict_retry(self.prealign, plan, now, 0);
    }

    /// The sizes of every stage match the configuration.
    pub closed spec fn wf(&self) -> bool {
        let c = self.config;
        let nb = banks_of(c);
        let ns = c.active_subbanks_spec() as int;
        let ni = c.crossbar_inputs_spec() as int;
        &&& buildable(c)
        &&& self.prealign.wf() && self.prealign.len_spec() == ni
        &&& self.serial_gate.wf() && self.serial_gate.len_spec() == gates_of(c)
        &&& self.read_xbar_inputs@.len() == ni
        &&& self.write_xbar_inputs@.len() == ni
        &&& self.read_xbar_outputs.wf() && self.read_xbar_outputs.len_spec() == ns
        &&& self.write_xbar_outputs.wf() && self.write_xbar_outputs.len_spec() == ns
        &&& self.read_xbar_masks@.len() == ns
        &&& self.write_xbar_masks@.len() == ns
        &&& self.bank_read_ports.wf() && self.bank_read_ports.len_spec() == nb * ns * read_ports_of(c)
        &&& self.gemmini_read_ports.wf() && self.gemmini_read_ports.len_spec() == nb * ns
            * read_ports_of(c)
        &&& self.bank_write_ports.wf() && self.bank_write_ports.len_spec() == nb * ns
        &&& self.gemmini_write_ports.wf() && self.gemmini_write_ports.len_spec() == nb * ns
        &&& self.bank_read_rr@.len() == nb * ns
        &&& self.bank_write_rr@.len() == nb * ns
        &&& self.gemmini_read_rr@.len() == nb * ns
        &&& self.gemmini_write_rr@.len() == nb * ns
        &&& self.read_tail.wf() && self.read_tail.len_spec() == ni
        &&& self.write_tail.wf() && self.write_tail.len_spec() == ni
        &&& self.bank_read_inflight@.len() == nb
        &&& self.bank_write_inflight@.len() == nb
        &&& self.gemmini_read_inflight@.len() == nb
        &&& self.gemmini_write_inflight@.len() == nb
        &&& self.stats.bank_busy_samples@.len() == nb
        &&& self.stats.bank_read_busy_samples@.len() == nb
        &&& self.stats.bank_write_busy_samples@.len() == nb
        &&& self.stats.bank_attempts@.len() == nb
        &&& self.stats.bank_conflicts@.len() == nb
    }

    /// Build the pipeline for `config`: every stage empty, statistics zero
    /// with one counter per bank.
    pub fn attach(graph: &mut FlowGraph<CoreFlowPayload>, config: &SmemFlowConfig) -> (r: Self)
        requires
            buildable(*config),
        ensures
            r.wf(),
            r.config_spec() == *config,
            r.completions_spec().len() == 0,
            r.inflight_total() == 0,
            r.next_id_spec() == 0,
            r.last_busy() == (0usize, 0usize),
            r.stats_spec().scalars_zero(),
            r.stats_spec().bank_busy_samples@ == Seq::new(banks_of(*config) as nat, |i: int| 0u64),
            r.stats_spec().bank_read_busy_samples@ == Seq::new(banks_of(*config) as nat, |i: int| 0u64),
            r.stats_spec().bank_write_busy_samples@ == Seq::new(banks_of(*config) as nat, |i: int| 0u64),
            r.stats_spec().bank_attempts@ == Seq::new(banks_of(*config) as nat, |i: int| 0u64),
            r.stats_spec().bank_conflicts@ == Seq::new(banks_of(*config) as nat, |i: int| 0u64),
            *final(graph) == *old(graph),
            r.stages_fresh(*config),
    {
        let num_banks: usize = if config.num_banks == 0 {
            1
        } else {
            config.num_banks
        };
        let subbanks = config.active_subbanks();
        let inputs = config.crossbar_inputs();
        let outputs = config.crossbar_outputs();
        let read_ports = config.read_ports_per_subbank();
        proof {
            lemma_product_bounds(num_banks as int, subbanks as int, read_ports as int);
        }
        let groups = num_banks * subbanks;
        let queue_depth = config.port_queue_depth;
        let prealign = PortGroup::new(
            inputs,
            stage_config(config.prealign_latency, config.prealign_bytes_per_cycle, config.prealign_buf_depth),
        );
        let gates: usize = match config.serialization {
            SmemSerialization::FullySerialized => 1,
            _ => 0,
        };
        let serial_gate = PortGroup::new(gates, stage_config(0, 1, queue_depth));
        let xbar_config = stage_config(config.crossbar_latency, config.crossbar_bytes_per_cycle, queue_depth);
        let mask = crate::timeflow::smem::arbiter::xbar_rr_initial_mask(inputs);
        let read_config = stage_config(config.port_latency_read, config.bank_read_bytes_per_cycle, queue_depth);
        let write_config = stage_config(config.port_latency_write, config.bank_write_bytes_per_cycle, queue_depth);
        let read_tail_config = stage_config(
            config.base_overhead.saturating_add(config.read_extra),
            config.tail_bytes_per_cycle,
            config.completion_queue_depth,
        );
        // Writes have already passed the ack queue: no extra byte-service
        // cycle in their tail.
        let write_tail_config = stage_config(config.base_overhead, u32::MAX, config.completion_queue_depth);
        SmemSubgraph {
            config: *config,
            completions: VecDeque::new(),
            total_inflight: 0,
            next_id: 0,
            stats: SmemStats::with_banks(num_banks),
            prealign,
            serial_gate,
            read_xbar_inputs: empty_queues(inputs),
            write_xbar_inputs: empty_queues(inputs),
            read_xbar_outputs: PortGroup::new(outputs, xbar_config),
            write_xbar_outputs: PortGroup::new(outputs, xbar_config),
            read_xbar_masks: filled_masks(outputs, mask),
            write_xbar_masks: filled_masks(outputs, mask),
            bank_read_ports: PortGroup::new(groups * read_ports, read_config),
            bank_write_ports: PortGroup::new(groups, write_config),
            gemmini_read_ports: PortGroup::new(groups * read_ports, read_config),
            gemmini_write_ports: PortGroup::new(groups, write_config),
            bank_read_rr: zero_usizes(groups),
            bank_write_rr: zero_usizes(groups),
            gemmini_read_rr: zero_usizes(groups),
            gemmini_write_rr: zero_usizes(groups),
            read_tail: PortGroup::new(inputs, read_tail_config),
            write_tail: PortGroup::new(inputs, write_tail_config),
            inflight: Vec::new(),
            bank_read_inflight: zero_u64s(num_banks),
            bank_write_inflight: zero_u64s(num_banks),
            gemmini_read_inflight: zero_u64s(num_banks),
            gemmini_write_inflight: zero_u64s(num_banks),
            last_lane_busy: 0,
            last_bank_busy: 0,
        }
    }

    /// Reset the statistics, keeping one zero counter per bank.
    pub fn clear_stats(&mut self)
        requires
            old(self).wf(),
        ensures
            final(self).wf(),
            final(self).stats_spec().scalars_zero(),
            final(self).stats_spec().bank_busy_samples@ == Seq::new(
                banks_of(old(self).config_spec()) as nat,
                |i: int| 0u64,
            ),
            final(self).stats_spec().bank_read_busy_samples@ == Seq::new(
                banks_of(old(self).config_spec()) as nat,
                |i: int| 0u64,
            ),
            final(self).stats_spec().bank_write_busy_samples@ == Seq::new(
                banks_of(old(self).config_spec()) as nat,
                |i: int| 0u64,
            ),
            final(self).stats_spec().bank_attempts@ == Seq::new(
                banks_of(old(self).config_spec()) as nat,
                |i: int| 0u64,
            ),
            final(self).stats_spec().bank_conflicts@ == Seq::new(
                banks_of(old(self).config_spec()) as nat,
                |i: int| 0u64,
            ),
            final(self).config_spec() == old(self).config_spec(),
            final(self).completions_spec() == old(self).completions_spec(),
            final(self).inflight_total() == old(self).inflight_total(),
            final(self).next_id_spec() == old(self).next_id_spec(),
            final(self).last_busy() == old(self).last_busy(),
    {
        let num_banks: usize = if self.config.num_banks == 0 {
            1
        } else {
            self.config.num_banks
        };
        self.stats = SmemStats::with_banks(num_banks);
    }

    /// Record one cycle of bank utilization: each bank with a read (write)
    /// in progress counts one busy read (write) sample, and one busy sample
    /// if either; the numbers of busy lanes and banks are kept for
    /// `sample_utilization`.
    pub fn sample_and_accumulate(&mut self, graph: &mut FlowGraph<CoreFlowPayload>)
        requires
            old(self).wf(),
        ensures
            final(self).wf(),
            final(self).last_busy() == (
                old(self).lanes_busy_now(),
                old(self).busy_banks_upto(banks_of(old(self).config_spec())),
            ),
            final(self).stats_spec().sample_cycles == sat_add(
                old(self).stats_spec().sample_cycles as int,
                1,
            ),
            forall|b: int|
                0 <= b < banks_of(old(self).config_spec()) ==> {
                    &&& #[trigger] final(self).stats_spec().bank_read_busy_samples@[b] == bump(
                        old(self).stats_spec().bank_read_busy_samples@[b],
                        old(self).bank_busy_reading(b),
                    )
                    &&& final(self).stats_spec().bank_write_busy_samples@[b] == bump(
                        old(self).stats_spec().bank_write_busy_samples@[b],
                        old(self).bank_busy_writing(b),
                    )
                    &&& final(self).stats_spec().bank_busy_samples@[b] == bump(
                        old(self).stats_spec().bank_busy_samples@[b],
                        old(self).bank_busy_reading(b) || old(self).bank_busy_writing(b),
                    )
                },
            final(self).stats_spec().issued == old(self).stats_spec().issued,
            final(self).stats_spec().completed == old(self).stats_spec().completed,
            final(self).stats_spec().bank_attempts == old(self).stats_spec().bank_attempts,
            final(self).stats_spec().bank_conflicts == old(self).stats_spec().bank_conflicts,
            final(self).config_spec() == old(self).config_spec(),
            final(self).completions_spec() == old(self).completions_spec(),
            final(self).inflight_total() == old(self).inflight_total(),
            final(self).next_id_spec() == old(self).next_id_spec(),
            *final(graph) == *old(graph),
    {
        let lane_busy = self.busy_lanes();
        let bank_busy = self.busy_bank_count();
        self.last_lane_busy = lane_busy;
        self.last_bank_busy = bank_busy;
        self.stats.sample_cycles = self.stats.sample_cycles.saturating_add(1);
        let num_banks = self.bank_read_inflight.len();
        let ghost pre = *self;
        let mut b: usize = 0;
        while b < num_banks
            invariant
                num_banks == banks_of(self.config),
                b <= num_banks,
                self.wf(),
                self.config == pre.config,
                self.bank_read_inflight == pre.bank_read_inflight,
                self.bank_write_inflight == pre.bank_write_inflight,
                self.gemmini_read_inflight == pre.gemmini_read_inflight,
                self.gemmini_write_inflight == pre.gemmini_write_inflight,
                self.stats.sample_cycles == pre.stats.sample_cycles,
                self.stats.issued == pre.stats.issued,
                self.stats.completed == pre.stats.completed,
                self.stats.bank_attempts == pre.stats.bank_attempts,
                self.stats.bank_conflicts == pre.stats.bank_conflicts,
                self.completions == pre.completions,
                self.total_inflight == pre.total_inflight,
                self.next_id == pre.next_id,
                self.last_lane_busy == pre.last_lane_busy,
                self.last_bank_busy == pre.last_bank_busy,
                forall|k: int|
                    0 <= k < num_banks ==> #[trigger] self.stats.bank_read_busy_samples@[k] == if k < b {
                        bump(pre.stats.bank_read_busy_samples@[k], pre.bank_busy_reading(k))
                    } else {
                        pre.stats.bank_read_busy_samples@[k]
                    },
                forall|k: int|
                    0 <= k < num_banks ==> #[trigger] self.stats.bank_write_busy_samples@[k] == if k < b {
                        bump(pre.stats.bank_write_busy_samples@[k], pre.bank_busy_writing(k))
                    } else {
                        pre.stats.bank_write_busy_samples@[k]
                    },
                forall|k: int|
                    0 <= k < num_banks ==> #[trigger] self.stats.bank_busy_samples@[k] == if k < b {
                        bump(
                            pre.stats.bank_busy_samples@[k],
                            pre.bank_busy_reading(k) || pre.bank_busy_writing(k),
                        )
                    } else {
                        pre.stats.bank_busy_samples@[k]
                    },
            decreases num_banks - b,
        {
            let reading = self.bank_read_inflight[b] > 0 || self.gemmini_read_inflight[b] > 0;
            let writing = self.bank_write_inflight[b] > 0 || self.gemmini_write_inflight[b] > 0;
            if reading {
                let v = self.stats.bank_read_busy_samples[b].saturating_add(1);
                self.stats.bank_read_busy_samples.set(b, v);
            }
            if writing {
                let v = self.stats.bank_write_busy_samples[b].saturating_add(1);
                self.stats.bank_write_busy_samples.set(b, v);
            }
            if reading || writing {
                let v = self.stats.bank_busy_samples[b].saturating_add(1);
                self.stats.bank_busy_samples.set(b, v);
            }
            b = b + 1;
        }
    }

    /// Busy lanes and banks as of the last sample, out of the configured
    /// lanes and banks.
    pub fn sample_utilization(&self, graph: &mut FlowGraph<CoreFlowPayload>) -> (r: SmemUtilSample)
        ensures
            r.lane_busy == self.last_busy().0,
            r.bank_busy == self.last_busy().1,
            r.lane_total == at_least_one(self.config_spec().num_lanes as int),
            r.bank_total == banks_of(self.config_spec()),
            *final(graph) == *old(graph),
    {
        SmemUtilSample {
            lane_busy: self.last_lane_busy,
            lane_total: if self.config.num_lanes == 0 {
                1
            } else {
                self.config.num_lanes
            },
            bank_busy: self.last_bank_busy,
            bank_total: if self.config.num_banks == 0 {
                1
            } else {
                self.config.num_banks
            },
        }
    }

    fn queued_total(queues: &Vec<VecDeque<LaneOp>>) -> (r: usize)
        ensures
            r == queued_upto(queues@, queues@.len() as int),
    {
        let mut total: usize = 0;
        let mut i: usize = 0;
        while i < queues.len()
            invariant
                i <= queues@.len(),
                total == queued_upto(queues@, i as int),
            decreases queues@.len() - i,
        {
            total = total.saturating_add(queues[i].len());
            i = i + 1;
        }
        total
    }

    fn counter_total(v: &Vec<u64>) -> (r: usize)
        ensures
            r == counters_upto(v@, v@.len() as int),
    {
        let mut total: usize = 0;
        let mut i: usize = 0;
        while i < v.len()
            invariant
                i <= v@.len(),
                total == counters_upto(v@, i as int),
            decreases v@.len() - i,
        {
            let x: usize = if v[i] >= usize::MAX as u64 {
                usize::MAX
            } else {
                v[i] as usize
            };
            total = total.saturating_add(x);
            i = i + 1;
        }
        total
    }

    fn busy_lanes(&self) -> (r: usize)
        requires
            self.wf(),
        ensures
            r == self.lanes_busy_now(),
    {
        let parts: [usize; 11] = [
            self.prealign.outstanding_total(),
            self.serial_gate.outstanding_total(),
            Self::queued_total(&self.read_xbar_inputs).saturating_add(
                Self::queued_total(&self.write_xbar_inputs),
            ),
            self.read_xbar_outputs.outstanding_total(),
            self.write_xbar_outputs.outstanding_total(),
            self.read_tail.outstanding_total(),
            self.write_tail.outstanding_total(),
            Self::counter_total(&self.bank_read_inflight),
            Self::counter_total(&self.bank_write_inflight),
            Self::counter_total(&self.gemmini_read_inflight),
            Self::counter_total(&self.gemmini_write_inflight),
        ];
        let ghost stages = seq![
            parts[0] as int, parts[1] as int, parts[2] as int, parts[3] as int, parts[4] as int,
            parts[5] as int, parts[6] as int, parts[7] as int, parts[8] as int, parts[9] as int,
            parts[10] as int,
        ];
        let mut total: usize = 0;
        let mut i: usize = 0;
        while i < 11
            invariant
                i <= 11,
                stages.len() == 11,
                forall|k: int| 0 <= k < 11 ==> #[trigger] stages[k] == parts@[k] as int,
                total == saturating_total(stages, i as int),
            decreases 11 - i,
        {
            total = total.saturating_add(parts[i]);
            i = i + 1;
        }
        assert(stages =~= seq![
            self.prealign.outstanding_upto(self.prealign.len_spec() as int) as int,
            self.serial_gate.outstanding_upto(self.serial_gate.len_spec() as int) as int,
            sat_add_usize(
                queued_upto(self.read_xbar_inputs@, self.read_xbar_inputs@.len() as int) as int,
                queued_upto(self.write_xbar_inputs@, self.write_xbar_inputs@.len() as int) as int,
            ) as int,
            self.read_xbar_outputs.outstanding_upto(self.read_xbar_outputs.len_spec() as int) as int,
            self.write_xbar_outputs.outstanding_upto(self.write_xbar_outputs.len_spec() as int) as int,
            self.read_tail.outstanding_upto(self.read_tail.len_spec() as int) as int,
            self.write_tail.outstanding_upto(self.write_tail.len_spec() as int) as int,
            counters_upto(self.bank_read_inflight@, self.bank_read_inflight@.len() as int) as int,
            counters_upto(self.bank_write_inflight@, self.bank_write_inflight@.len() as int) as int,
            counters_upto(self.gemmini_read_inflight@, self.gemmini_read_inflight@.len() as int) as int,
            counters_upto(self.gemmini_write_inflight@, self.gemmini_write_inflight@.len() as int) as int,
        ]);
        total
    }

    fn busy_bank_count(&self) -> (r: usize)
        requires
            self.wf(),
        ensures
            r == self.busy_banks_upto(banks_of(self.config)),
    {
        let n = self.bank_read_inflight.len();
        let mut count: usize = 0;
        let mut b: usize = 0;
        while b < n
            invariant
                self.wf(),
                n == banks_of(self.config),
                b <= n,
                count == self.busy_banks_upto(b as int),
            decreases n - b,
        {
            if self.bank_read_inflight[b] > 0 || self.gemmini_read_inflight[b] > 0
                || self.bank_write_inflight[b] > 0 || self.gemmini_write_inflight[b] > 0 {
                count = count.saturating_add(1);
            }
            b = b + 1;
        }
        count
    }

    /// Issue `request` at `now`. A request without an identifier receives
    /// the next free one; a request with one moves the next free identifier
    /// past it. The request is refused, and handed back, as `issue_verdict`
    /// says; otherwise its accesses enter the pipeline and it is counted in
    /// flight, with a ticket issued and ready at `now` for its bytes.
    pub fn issue(&mut self, graph: &mut FlowGraph<CoreFlowPayload>, now: Cycle, request: SmemRequest) -> (r: Result<
        SmemIssue,
        SmemReject,
    >)
        requires
            old(self).wf(),
        ensures
            final(self).wf(),
            *final(graph) == *old(graph),
            final(self).config_spec() == old(self).config_spec(),
            final(self).completions_spec() == old(self).completions_spec(),
            final(self).last_busy() == old(self).last_busy(),
            final(self).next_id_spec() == next_id_after(old(self).next_id_spec(), request.id),
            stats_after_issue(
                old(self).stats_spec(),
                final(self).stats_spec(),
                old(self).config_spec(),
                request,
                old(self).issue_verdict(request, now),
                old(self).inflight_total(),
            ),
            old(self).issue_verdict(request, now) matches Some((reason, retry)) ==> (r matches Err(e)
                && e.reason == reason && e.retry_at == retry && e.payload == with_id(
                request,
                assigned_id(old(self).next_id_spec(), request.id),
            )) && final(self).inflight_total() == old(self).inflight_total(),
            old(self).issue_verdict(request, now) is None ==> (r matches Ok(issue) && issue.request_id
                == assigned_id(old(self).next_id_spec(), request.id) && issue.ticket.issued() == now
                && issue.ticket.ready() == now && issue.ticket.size() == request.bytes)
                && final(self).inflight_total() == sat_add(old(self).inflight_total() as int, 1),
            old(self).issue_verdict(request, now) is None && request.client != SmemClientKind::Gemmini ==> {
                let plan = lane_plan_spec(old(self).config_spec(), request);
                let n = old(self).prealign_spec().len_spec();
                &&& final(self).prealign_spec().len_spec() == n
                &&& forall|i: int|
                    0 <= i < n ==> #[trigger] final(self).prealign_spec().at(i).outstanding_spec()
                        == old(self).prealign_spec().at(i).outstanding_spec() + prealign_demand(
                        plan,
                        n - 1,
                        i,
                        plan.len() as int,
                    )
            },
    {
        let ghost pre = *self;
        let ghost verdict = pre.issue_verdict(request, now);
        let ghost given = request;
        let assigned = if request.id == 0 {
            let id = self.next_id;
            self.next_id = self.next_id.saturating_add(1);
            id
        } else {
            self.next_id = max_u64(self.next_id, request.id.saturating_add(1));
            request.id
        };
        let mut request = request;
        request.id = assigned;
        proof {
            assert(request == with_id(given, assigned));
            lemma_plan_ignores_id(self.config, given, assigned);
        }
        let ghost plan = lane_plan_spec(self.config, request);
        if self.total_inflight >= self.config.max_outstanding as u64 {
            self.stats.queue_full_rejects = self.stats.queue_full_rejects.saturating_add(1);
            return Err(RejectWith::new(request, now.saturating_add(1), RejectReason::QueueFull));
        }
        let ops = build_lane_ops(&self.config, &request);
        if ops.len() == 0 {
            self.stats.busy_rejects = self.stats.busy_rejects.saturating_add(1);
            return Err(RejectWith::new(request, now.saturating_add(1), RejectReason::Busy));
        }
        proof {
            assert forall|i: int| 0 <= i < ops@.len() implies (#[trigger] ops@[i]).lane == plan[i].0
                && ops@[i].bank == self.config.decode_spec(plan[i].1).0 && ops@[i].subbank
                == self.config.decode_spec(plan[i].1).1 by {
                assert(op_from_plan(self.config, request, ops@[i], plan[i]));
            }
        }
        let gemmini = match request.client {
            SmemClientKind::Gemmini => true,
            _ => false,
        };
        if gemmini {
            if self.gemmini_lacks_room(&ops, Ghost(plan), request.is_store) {
                self.stats.queue_full_rejects = self.stats.queue_full_rejects.saturating_add(1);
                return Err(RejectWith::new(request, now.saturating_add(1), RejectReason::QueueFull));
            }
        } else {
            match self.prealign_check(&ops, Ghost(plan), now) {
                Some((reason, retry)) => {
                    match reason {
                        RejectReason::QueueFull => {
                            self.stats.queue_full_rejects = self.stats.queue_full_rejects.saturating_add(1);
                        },
                        RejectReason::Busy => {
                            self.stats.busy_rejects = self.stats.busy_rejects.saturating_add(1);
                        },
                    }
                    return Err(RejectWith::new(request, retry, reason));
                },
                None => {},
            }
        }
        assert(verdict is None);
        self.record_bank_pressure(&ops, Ghost(plan));
        let ops_total = ops.len();
        let bytes = request.bytes;
        let is_store = request.is_store;
        self.enqueue_new_ops(now, ops, gemmini, Ghost(plan));
        self.insert_inflight(
            InflightRequestState {
                request,
                ops_total,
                ops_completed: 0,
                max_bank_ready_at: now,
                tail_enqueued: false,
            },
        );
        self.total_inflight = self.total_inflight.saturating_add(1);
        self.stats.issued = self.stats.issued.saturating_add(1);
        if is_store {
            self.stats.write_issued = self.stats.write_issued.saturating_add(1);
        } else {
            self.stats.read_issued = self.stats.read_issued.saturating_add(1);
        }
        self.stats.bytes_issued = self.stats.bytes_issued.saturating_add(bytes as u64);
        self.stats.inflight = self.total_inflight;
        self.stats.max_inflight = max_u64(self.stats.max_inflight, self.total_inflight);
        Ok(SmemIssue { request_id: assigned, ticket: Ticket::new(now, now, bytes) })
    }

    /// Decide, buffer by buffer, whether the prealign buffers take the
    /// accesses `ops`.
    fn prealign_check(&self, ops: &Vec<LaneOp>, Ghost(plan): Ghost<Seq<(usize, u64, u32)>>, now: Cycle) -> (r:
        Option<(RejectReason, Cycle)>)
        requires
            self.wf(),
            ops@.len() == plan.len(),
            forall|i: int| 0 <= i < ops@.len() ==> #[trigger] ops@[i].lane == plan[i].0,
        ensures
            r == prealign_verdict(self.prealign, plan, now, 0),
    {
        let n = self.prealign.len();
        let last = n - 1;
        let mut idx: usize = 0;
        while idx < n
            invariant
                self.wf(),
                n == self.prealign.len_spec(),
                n >= 1,
                last == n - 1,
                idx <= n,
                ops@.len() == plan.len(),
                forall|i: int| 0 <= i < ops@.len() ==> #[trigger] ops@[i].lane == plan[i].0,
                prealign_verdict(self.prealign, plan, now, 0) == prealign_verdict(self.prealign, plan, now, idx as int),
            decreases n - idx,
        {
            let mut demand: usize = 0;
            let mut j: usize = 0;
            while j < ops.len()
                invariant
                    j <= ops@.len(),
                    ops@.len() == plan.len(),
                    forall|i: int| 0 <= i < ops@.len() ==> #[trigger] ops@[i].lane == plan[i].0,
                    demand == prealign_demand(plan, last as int, idx as int, j as int),
                    demand <= j,
                decreases ops@.len() - j,
            {
                let lane = ops[j].lane;
                let slot = if lane < last {
                    lane
                } else {
                    last
                };
                if slot == idx {
                    demand = demand + 1;
                }
                j = j + 1;
            }
            let free = self.prealign.available_slots(idx);
            if demand > free {
                return Some((RejectReason::QueueFull, now.saturating_add(1)));
            }
            match self.prealign.accept_status(idx, now) {
                AcceptStatus::Busy { available_at } => {
                    return Some((RejectReason::Busy, available_at));
                },
                _ => {},
            }
            idx = idx + 1;
        }
        None
    }

    /// Free entries of the Gemmini ports that serve `bank`, `subbank`.
    fn gemmini_room(&self, is_store: bool, bank: usize, subbank: usize) -> (r: usize)
        requires
            self.wf(),
        ensures
            r == self.gemmini_free(is_store, (bank, subbank)),
    {
        let nb = self.bank_read_inflight.len();
        let ns = self.config.active_subbanks();
        let b = if bank < nb - 1 {
            bank
        } else {
            nb - 1
        };
        let sb = if subbank < ns - 1 {
            subbank
        } else {
            ns - 1
        };
        let rp = self.config.read_ports_per_subbank();
        proof {
            lemma_product_bounds(nb as int, ns as int, rp as int);
            lemma_flat_index(b as int, sb as int, 0, nb as int, ns as int, rp as int);
            lemma_flat_index(b as int, sb as int, rp - 1, nb as int, ns as int, rp as int);
            lemma_flat_index(b as int, sb as int, 0, nb as int, ns as int, 1);
        }
        let g = b * ns + sb;
        if is_store {
            self.gemmini_write_ports.free_slots(g, 1)
        } else {
            self.gemmini_read_ports.free_slots(g * rp, rp)
        }
    }

    /// Whether some bank and subbank that `ops` target lacks Gemmini port
    /// room for all of its accesses.
    fn gemmini_lacks_room(&self, ops: &Vec<LaneOp>, Ghost(plan): Ghost<Seq<(usize, u64, u32)>>, is_store: bool) -> (r:
        bool)
        requires
            self.wf(),
            ops@.len() == plan.len(),
            forall|i: int|
                0 <= i < ops@.len() ==> (#[trigger] ops@[i]).bank == self.config.decode_spec(plan[i].1).0
                    && ops@[i].subbank == self.config.decode_spec(plan[i].1).1,
        ensures
            r == self.gemmini_short(is_store, plan),
    {
        let n = ops.len();
        let mut j: usize = 0;
        while j < n
            invariant
                self.wf(),
                n == ops@.len(),
                ops@.len() == plan.len(),
                forall|i: int|
                    0 <= i < ops@.len() ==> (#[trigger] ops@[i]).bank == self.config.decode_spec(plan[i].1).0
                        && ops@[i].subbank == self.config.decode_spec(plan[i].1).1,
                j <= n,
                forall|q: int|
                    0 <= q < j ==> !(#[trigger] target_demand(
                        self.config,
                        plan,
                        self.config.decode_spec(plan[q].1),
                        plan.len() as int,
                    ) > self.gemmini_free(is_store, self.config.decode_spec(plan[q].1))),
            decreases n - j,
        {
            let bank = ops[j].bank;
            let subbank = ops[j].subbank;
            let ghost target = self.config.decode_spec(plan[j as int].1);
            assert(target == (bank, subbank));
            let mut demand: usize = 0;
            let mut k: usize = 0;
            while k < n
                invariant
                    n == ops@.len(),
                    ops@.len() == plan.len(),
                    forall|i: int|
                        0 <= i < ops@.len() ==> (#[trigger] ops@[i]).bank == self.config.decode_spec(
                            plan[i].1,
                        ).0 && ops@[i].subbank == self.config.decode_spec(plan[i].1).1,
                    target == (bank, subbank),
                    k <= n,
                    demand == target_demand(self.config, plan, target, k as int),
                    demand <= k,
                decreases n - k,
            {
                if ops[k].bank == bank && ops[k].subbank == subbank {
                    demand = demand + 1;
                }
                k = k + 1;
            }
            let room = self.gemmini_room(is_store, bank, subbank);
            if demand > room {
                proof {
                    assert(target_demand(self.config, plan, self.config.decode_spec(plan[j as int].1), plan.len() as int)
                        > self.gemmini_free(is_store, self.config.decode_spec(plan[j as int].1)));
                }
                return true;
            }
            j = j + 1;
        }
        false
    }

    /// Count the accesses `ops` per bank into the attempt and conflict
    /// counters.
    fn record_bank_pressure(&mut self, ops: &Vec<LaneOp>, Ghost(plan): Ghost<Seq<(usize, u64, u32)>>)
        requires
            old(self).wf(),
            ops@.len() == plan.len(),
            forall|i: int|
                0 <= i < ops@.len() ==> (#[trigger] ops@[i]).bank == old(self).config.decode_spec(plan[i].1).0,
        ensures
            final(self).wf(),
            pressure_added(
                old(self).config,
                plan,
                old(self).stats.bank_attempts@,
                final(self).stats.bank_attempts@,
                false,
            ),
            pressure_added(
                old(self).config,
                plan,
                old(self).stats.bank_conflicts@,
                final(self).stats.bank_conflicts@,
                true,
            ),
            final(self).stats == (SmemStats {
                bank_attempts: final(self).stats.bank_attempts,
                bank_conflicts: final(self).stats.bank_conflicts,
                ..old(self).stats
            }),
            *final(self) == (SmemSubgraph { stats: final(self).stats, ..*old(self) }),
    {
        let nb = self.stats.bank_attempts.len();
        let n = ops.len();
        let ghost pre = *self;
        let mut b: usize = 0;
        while b < nb
            invariant
                pre.wf(),
                nb == banks_of(pre.config),
                n == ops@.len(),
                ops@.len() == plan.len(),
                forall|i: int| 0 <= i < ops@.len() ==> (#[trigger] ops@[i]).bank == pre.config.decode_spec(plan[i].1).0,
                b <= nb,
                *self == (SmemSubgraph { stats: self.stats, ..pre }),
                self.stats == (SmemStats {
                    bank_attempts: self.stats.bank_attempts,
                    bank_conflicts: self.stats.bank_conflicts,
                    ..pre.stats
                }),
                self.stats.bank_attempts@.len() == nb,
                self.stats.bank_conflicts@.len() == nb,
                forall|k: int|
                    0 <= k < nb ==> #[trigger] self.stats.bank_attempts@[k] == if k < b {
                        let c = bank_demand(pre.config, plan, k, plan.len() as int);
                        if c == 0 {
                            pre.stats.bank_attempts@[k]
                        } else {
                            sat_add(pre.stats.bank_attempts@[k] as int, c as int)
                        }
                    } else {
                        pre.stats.bank_attempts@[k]
                    },
                forall|k: int|
                    0 <= k < nb ==> #[trigger] self.stats.bank_conflicts@[k] == if k < b {
                        let c = bank_demand(pre.config, plan, k, plan.len() as int);
                        if c == 0 {
                            pre.stats.bank_conflicts@[k]
                        } else {
                            sat_add(pre.stats.bank_conflicts@[k] as int, c - 1)
                        }
                    } else {
                        pre.stats.bank_conflicts@[k]
                    },
            decreases nb - b,
        {
            let mut count: u64 = 0;
            let mut j: usize = 0;
            while j < n
                invariant
                    n == ops@.len(),
                    ops@.len() == plan.len(),
                    forall|i: int| 0 <= i < ops@.len() ==> (#[trigger] ops@[i]).bank == pre.config.decode_spec(plan[i].1).0,
                    j <= n,
                    count == bank_demand(pre.config, plan, b as int, j as int),
                    count <= j,
                decreases n - j,
            {
                if ops[j].bank == b {
                    count = count + 1;
                }
                j = j + 1;
            }
            if count > 0 {
                let a = self.stats.bank_attempts[b].saturating_add(count);
                self.stats.bank_attempts.set(b, a);
                let c = self.stats.bank_conflicts[b].saturating_add(count - 1);
                self.stats.bank_conflicts.set(b, c);
            }
            b = b + 1;
        }
    }

    /// Put the accesses of a newly accepted request into their first stage:
    /// the Gemmini bank ports, or the prealign buffer of their lane.
    #[verifier::spinoff_prover]
    fn enqueue_new_ops(&mut self, now: Cycle, ops: Vec<LaneOp>, gemmini: bool, Ghost(plan): Ghost<Seq<(usize, u64, u32)>>)
        requires
            old(self).wf(),
            !gemmini ==> ops@.len() == plan.len() && (forall|i: int| 0 <= i < ops@.len() ==> #[trigger] ops@[i].lane
                == plan[i].0) && prealign_verdict(old(self).prealign, plan, now, 0) is None,
        ensures
            final(self).wf(),
            old(self).same_accounting(final(self)),
            !gemmini ==> final(self).prealign.len_spec() == old(self).prealign.len_spec() && forall|i: int|
                0 <= i < old(self).prealign.len_spec() ==> #[trigger] final(self).prealign.at(i).outstanding_spec()
                    == old(self).prealign.at(i).outstanding_spec() + prealign_demand(
                    plan,
                    old(self).prealign.len_spec() - 1,
                    i,
                    plan.len() as int,
                ),
    {
        let mut ops = ops;
        let n = self.prealign.len();
        let last = n - 1;
        let ghost pre = *self;
        let ghost ops0 = ops@;
        let ghost mut k: int = 0;
        proof {
            if !gemmini {
                lemma_prealign_verdict_none(pre.prealign, plan, now, 0);
            }
            assert(ops@ =~= ops0.skip(0));
        }
        while ops.len() > 0
            invariant
                self.wf(),
                pre.same_accounting(self),
                n == self.prealign.len_spec(),
                n >= 1,
                last == n - 1,
                0 <= k <= ops0.len(),
                ops@ == ops0.skip(k),
                !gemmini ==> {
                    &&& ops0.len() == plan.len()
                    &&& forall|i: int| 0 <= i < ops0.len() ==> #[trigger] ops0[i].lane == plan[i].0
                    &&& forall|j: int|
                        0 <= j < n ==> #[trigger] prealign_demand(plan, n - 1, j, plan.len() as int)
                            <= pre.prealign.at(j).cfg().queue_capacity - pre.prealign.at(j).outstanding_spec()
                            && !(!pre.prealign.at(j).is_full() && pre.prealign.at(j).is_warming(now))
                    &&& forall|j: int|
                        0 <= j < n ==> #[trigger] self.prealign.at(j).outstanding_spec()
                            == pre.prealign.at(j).outstanding_spec() + prealign_demand(plan, n - 1, j, k)
                            && self.prealign.at(j).cfg() == pre.prealign.at(j).cfg()
                            && self.prealign.at(j).warmup() == pre.prealign.at(j).warmup()
                },
            decreases ops@.len(),
        {
            let ghost before = self.prealign;
            let op = ops.remove(0);
            proof {
                assert(op == ops0[k]);
                assert(ops@ =~= ops0.skip(k + 1));
            }
            if gemmini {
                let _ = self.enqueue_bank(now, op);
            } else {
                let slot = if op.lane < last {
                    op.lane
                } else {
                    last
                };
                proof {
                    lemma_prealign_demand_mono(plan, n - 1, slot as int, k + 1, plan.len() as int);
                    assert(prealign_demand(plan, n - 1, slot as int, k + 1) == prealign_demand(plan, n - 1, slot as int, k) + 1);
                    assert(self.prealign.at(slot as int).outstanding_spec() == pre.prealign.at(slot as int).outstanding_spec()
                        + prealign_demand(plan, n - 1, slot as int, k));
                }
                let _ = self.prealign.try_enqueue(slot, now, ServiceRequest::new(op, 1));
                proof {
                    assert forall|j: int| 0 <= j < n implies #[trigger] self.prealign.at(j).outstanding_spec()
                        == pre.prealign.at(j).outstanding_spec() + prealign_demand(plan, n - 1, j, k + 1)
                        && self.prealign.at(j).cfg() == pre.prealign.at(j).cfg()
                        && self.prealign.at(j).warmup() == pre.prealign.at(j).warmup() by {
                        if j != slot {
                            assert(self.prealign.at(j) == before.at(j));
                        }
                        let o = self.prealign.at(j).outstanding_spec();
                        assert(o == pre.prealign.at(j).outstanding_spec() + prealign_demand(plan, n - 1, j, k + 1));
                        assert(self.prealign.at(j).cfg() == pre.prealign.at(j).cfg());
                        assert(self.prealign.at(j).warmup() == pre.prealign.at(j).warmup());
                    }
                }
            }
            proof {
                k = k + 1;
            }
        }
        proof {
            if !gemmini {
                assert(k == ops0.len());
            }
        }
    }

    /// Record a newly accepted request, replacing any earlier record with the
    /// same identifier.
    fn insert_inflight(&mut self, state: InflightRequestState)
        requires
            old(self).wf(),
        ensures
            final(self).wf(),
            *final(self) == (SmemSubgraph { inflight: final(self).inflight, ..*old(self) }),
            (forall|j: int| 0 <= j < old(self).inflight@.len() ==> (#[trigger] old(self).inflight@[j]).request.id
                != state.request.id) ==> final(self).inflight@ == old(self).inflight@.push(state),
            forall|i: int|
                0 <= i < old(self).inflight@.len() && (#[trigger] old(self).inflight@[i]).request.id == state.request.id
                    && (forall|j: int| 0 <= j < i ==> (#[trigger] old(self).inflight@[j]).request.id != state.request.id)
                    ==> final(self).inflight@ == old(self).inflight@.update(i, state),
    {
        let id = state.request.id;
        let n = self.inflight.len();
        let mut i: usize = 0;
        while i < n
            invariant_except_break
                i <= n,
            invariant
                n == self.inflight@.len(),
                self.inflight@ == old(self).inflight@,
                forall|j: int| 0 <= j < i ==> (#[trigger] self.inflight@[j]).request.id != id,
            ensures
                i <= n,
                i < n ==> self.inflight@[i as int].request.id == id,
            decreases n - i,
        {
            if self.inflight[i].request.id == id {
                break;
            }
            i = i + 1;
        }
        if i < n {
            self.inflight.set(i, state);
        } else {
            self.inflight.push(state);
        }
    }

    /// The prealign buffers, one per crossbar input.
    pub closed spec fn prealign_spec(&self) -> PortGroup<LaneOp> {
        self.prealign
    }

    /// The completion tails for reads.
    pub closed spec fn read_tail_spec(&self) -> PortGroup<SmemCompletion> {
        self.read_tail
    }

    /// The completion tails for writes.
    pub closed spec fn write_tail_spec(&self) -> PortGroup<SmemCompletion> {
        self.write_tail
    }

    /// Serviced at `now`, the tails `rt` and `wt` hand out exactly the
    /// completions `post` gained over `self`, read tails first, tail by
    /// tail, each stamped `now`; and the tails of `post` are `rt` and `wt`
    /// serviced.
    pub open spec fn tails_finished(
        &self,
        post: &Self,
        rt: PortGroup<SmemCompletion>,
        wt: PortGroup<SmemCompletion>,
        now: Cycle,
    ) -> bool {
        let n = rt.len_spec();
        let out = tail_out(rt, now, n) + tail_out(wt, now, n);
        let added = post.completions_spec().skip(self.completions_spec().len() as int);
        &&& added.len() == out.len()
        &&& forall|j: int| 0 <= j < out.len() ==> #[trigger] added[j] == (SmemCompletion { completed_at: now, ..out[j] })
        &&& post.read_tail_spec().len_spec() == n
        &&& post.write_tail_spec().len_spec() == wt.len_spec()
        &&& forall|i: int|
            0 <= i < n ==> rt.at(i).serviced(&#[trigger] post.read_tail_spec().at(i), now) && wt.at(i).serviced(
                &post.write_tail_spec().at(i),
                now,
            )
    }

    /// Some tails `rt` and `wt` were serviced into `post` (see
    /// `tails_finished`).
    pub open spec fn tails_finished_some(&self, post: &Self, now: Cycle) -> bool {
        exists|rt: PortGroup<SmemCompletion>, wt: PortGroup<SmemCompletion>| #[trigger] self.tails_finished(
            post,
            rt,
            wt,
            now,
        )
    }

    /// Everything the caller observes (configuration, completions,
    /// statistics, identifiers, counts) is the same in `self` and `other`.
    pub closed spec fn same_counters(&self, other: &Self) -> bool {
        &&& other.config == self.config
        &&& other.completions == self.completions
        &&& other.total_inflight == self.total_inflight
        &&& other.next_id == self.next_id
        &&& other.stats == self.stats
        &&& other.last_lane_busy == self.last_lane_busy
        &&& other.last_bank_busy == self.last_bank_busy
    }

    /// Advance the pipeline to `now` and collect the requests that complete:
    /// prealignment, crossbars, bank ports and completion tails, in that
    /// order. Completed requests are appended to `completions`, stamped with
    /// `now`, and counted; the completion queue's high-water mark follows.
    pub fn collect_completions(&mut self, graph: &mut FlowGraph<CoreFlowPayload>, now: Cycle)
        requires
            old(self).wf(),
        ensures
            final(self).wf(),
            *final(graph) == *old(graph),
            final(self).config_spec() == old(self).config_spec(),
            final(self).next_id_spec() == old(self).next_id_spec(),
            final(self).last_busy() == old(self).last_busy(),
            ({
                let before = old(self).completions_spec();
                let after = final(self).completions_spec();
                let added = after.skip(before.len() as int);
                &&& after.len() >= before.len()
                &&& after.take(before.len() as int) == before
                &&& forall|i: int| 0 <= i < added.len() ==> (#[trigger] added[i]).completed_at == now
                &&& final(self).inflight_total() == sat_sub(old(self).inflight_total() as int, added.len() as int)
                &&& stats_after_finishing(
                    old(self).stats_spec(),
                    final(self).stats_spec(),
                    added,
                    now,
                    final(self).inflight_total(),
                )
                &&& final(self).stats_spec().max_completion_queue == max_spec(
                    old(self).stats_spec().max_completion_queue,
                    after.len() as u64,
                )
            }),
            old(self).tails_finished_some(final(self), now),
    {
        self.process_prealign(now);
        self.process_xbar(now);
        self.process_banked_array(now);
        let ghost mid = *self;
        self.process_tail(now);
        let len = self.completions.len() as u64;
        self.stats.max_completion_queue = max_u64(self.stats.max_completion_queue, len);
        proof {
            assert(mid.completions@ == old(self).completions@);
            assert(old(self).tails_finished(self, mid.read_tail, mid.write_tail, now));
        }
    }

    /// The configuration the pipeline was built from.
    pub fn config_copy(&self) -> (r: SmemFlowConfig)
        ensures
            r == self.config_spec(),
            self.wf() ==> buildable(r),
    {
        self.config
    }

    /// Finished requests waiting to be taken.
    pub fn pending_completions(&self) -> (r: usize)
        ensures
            r == self.completions_spec().len(),
    {
        self.completions.len()
    }

    /// A copy of the statistics.
    pub fn stats_copy(&self) -> (r: SmemStats)
        ensures
            self.stats_spec().same_counts(r),
    {
        self.stats.duplicate()
    }

    /// Take the oldest completion not yet drained.
    pub fn take_completion(&mut self) -> (r: Option<SmemCompletion>)
        requires
            old(self).wf(),
        ensures
            final(self).wf(),
            final(self).config_spec() == old(self).config_spec(),
            old(self).completions_spec().len() == 0 ==> r is None && final(self).completions_spec()
                == old(self).completions_spec(),
            old(self).completions_spec().len() > 0 ==> r == Some(old(self).completions_spec()[0])
                && final(self).completions_spec() == old(self).completions_spec().drop_first(),
    {
        self.completions.pop_front()
    }

    /// Queue `op` at its crossbar input (the only one when fully serialized,
    /// else its lane's, clamped); false when that queue is full.
    /// The crossbar input an operation enters: its lane (clamped to the
    /// inputs), or input 0 when fully serialized.
    spec fn xbar_input_of(&self, op: LaneOp) -> int {
        let inputs = self.read_xbar_inputs@.len();
        match self.config.serialization {
            SmemSerialization::FullySerialized => 0,
            _ => if op.lane < inputs - 1 {
                op.lane as int
            } else {
                inputs - 1
            },
        }
    }

    /// The crossbar input queues of writes (`true`) or reads.
    spec fn xbar_queues(&self, is_store: bool) -> Seq<VecDeque<LaneOp>> {
        if is_store {
            self.write_xbar_inputs@
        } else {
            self.read_xbar_inputs@
        }
    }

    fn enqueue_xbar(&mut self, op: LaneOp) -> (r: bool)
        requires
            old(self).wf(),
        ensures
            final(self).wf(),
            *final(self) == (SmemSubgraph {
                read_xbar_inputs: final(self).read_xbar_inputs,
                write_xbar_inputs: final(self).write_xbar_inputs,
                ..*old(self)
            }),
            ({
                let i = old(self).xbar_input_of(op);
                let depth = if old(self).config.port_queue_depth == 0 { 1 } else { old(self).config.port_queue_depth as int };
                let q = old(self).xbar_queues(op.is_store);
                let q2 = final(self).xbar_queues(op.is_store);
                &&& r == (0 <= i < q.len() && q[i]@.len() < depth)
                &&& !r ==> *final(self) == *old(self)
                &&& final(self).xbar_queues(!op.is_store) == old(self).xbar_queues(!op.is_store)
                &&& r ==> q2.len() == q.len() && q2[i]@ == q[i]@.push(op) && forall|j: int|
                    0 <= j < q.len() && j != i ==> #[trigger] q2[j] == q[j]
            }),
    {
        let inputs = self.read_xbar_inputs.len();
        let input: usize = match self.config.serialization {
            SmemSerialization::FullySerialized => 0,
            _ => if op.lane < inputs - 1 {
                op.lane
            } else {
                inputs - 1
            },
        };
        let depth: usize = if self.config.port_queue_depth == 0 {
            1
        } else {
            self.config.port_queue_depth
        };
        if op.is_store {
            if input >= self.write_xbar_inputs.len() || self.write_xbar_inputs[input].len() >= depth {
                return false;
            }
            self.write_xbar_inputs[input].push_back(op);
        } else {
            if input >= self.read_xbar_inputs.len() || self.read_xbar_inputs[input].len() >= depth {
                return false;
            }
            self.read_xbar_inputs[input].push_back(op);
        }
        true
    }

    /// Move the operations that finished prealignment on to the crossbar.
    /// Fully serialized: through the single gate, one at a time. Core
    /// serialized: the ready heads of all lanes move together, merged into
    /// one operation when they access the same word. Otherwise each lane
    /// drains on its own. A lane stops at the first operation the next stage
    /// refuses.
    fn process_prealign(&mut self, now: Cycle)
        requires
            old(self).wf(),
        ensures
            final(self).wf(),
            old(self).same_accounting(final(self)),
    {
        let ghost pre = *self;
        let n = self.prealign.len();
        if self.serial_gate.len() > 0 {
            let mut idx: usize = 0;
            while idx < n
                invariant
                    self.wf(),
                    pre.same_accounting(self),
                    n == self.prealign.len_spec(),
                    self.serial_gate.len_spec() > 0,
                    idx <= n,
                decreases n - idx,
            {
                loop
                    invariant
                        self.wf(),
                        pre.same_accounting(self),
                        n == self.prealign.len_spec(),
                        self.serial_gate.len_spec() > 0,
                        idx < n,
                    ensures
                        self.wf(),
                        pre.same_accounting(self),
                        n == self.prealign.len_spec(),
                        self.serial_gate.len_spec() > 0,
                    decreases self.prealign.at(idx as int).outstanding_spec(),
                {
                    let ghost before = self.prealign.at(idx as int).outstanding_spec();
                    let op = match self.prealign.peek_ready(idx, now) {
                        Some(ready) => ready.payload.duplicate(),
                        None => {
                            break;
                        },
                    };
                    match self.serial_gate.try_enqueue(0, now, ServiceRequest::new(op, 1)) {
                        Ok(_) => {},
                        Err(_) => {
                            break;
                        },
                    }
                    let _ = self.prealign.pop_ready(idx, now);
                    assert(self.prealign.at(idx as int).outstanding_spec() < before);
                }
                idx = idx + 1;
            }
            loop
                invariant
                    self.wf(),
                    pre.same_accounting(self),
                    self.serial_gate.len_spec() > 0,
                ensures
                    self.wf(),
                    pre.same_accounting(self),
                decreases self.serial_gate.at(0).outstanding_spec(),
            {
                let ghost before = self.serial_gate.at(0).outstanding_spec();
                let op = match self.serial_gate.peek_ready(0, now) {
                    Some(ready) => ready.payload.duplicate(),
                    None => {
                        break;
                    },
                };
                if !self.enqueue_xbar(op) {
                    break;
                }
                let _ = self.serial_gate.pop_ready(0, now);
                assert(self.serial_gate.at(0).outstanding_spec() < before);
            }
            return;
        }
        match self.config.serialization {
            SmemSerialization::CoreSerialized => {
                let mut ready: Vec<(usize, LaneOp)> = Vec::new();
                let mut idx: usize = 0;
                while idx < n
                    invariant
                        self.wf(),
                        pre.same_accounting(self),
                        n == self.prealign.len_spec(),
                        idx <= n,
                    decreases n - idx,
                {
                    match self.prealign.peek_ready(idx, now) {
                        Some(r) => {
                            let op = r.payload.duplicate();
                            ready.push((idx, op));
                        },
                        None => {},
                    }
                    idx = idx + 1;
                }
                let mut groups = crate::timeflow::smem::lanes::coalesce_ready_lane_ops_with_sources(ready);
                while groups.len() > 0
                    invariant
                        self.wf(),
                        pre.same_accounting(self),
                        n == self.prealign.len_spec(),
                    decreases groups@.len(),
                {
                    let group = groups.remove(0);
                    if self.enqueue_xbar(group.op) {
                        let mut k: usize = 0;
                        while k < group.sources.len()
                            invariant
                                self.wf(),
                                pre.same_accounting(self),
                                n == self.prealign.len_spec(),
                                k <= group.sources@.len(),
                            decreases group.sources@.len() - k,
                        {
                            let src = group.sources[k];
                            if src < n {
                                let _ = self.prealign.pop_ready(src, now);
                            }
                            k = k + 1;
                        }
                    }
                }
            },
            _ => {
                let mut idx: usize = 0;
                while idx < n
                    invariant
                        self.wf(),
                        pre.same_accounting(self),
                        n == self.prealign.len_spec(),
                        idx <= n,
                    decreases n - idx,
                {
                    loop
                        invariant
                            self.wf(),
                            pre.same_accounting(self),
                            n == self.prealign.len_spec(),
                            idx < n,
                        ensures
                            self.wf(),
                            pre.same_accounting(self),
                            n == self.prealign.len_spec(),
                        decreases self.prealign.at(idx as int).outstanding_spec(),
                    {
                        let ghost before = self.prealign.at(idx as int).outstanding_spec();
                        let op = match self.prealign.peek_ready(idx, now) {
                            Some(ready) => ready.payload.duplicate(),
                            None => {
                                break;
                            },
                        };
                        if !self.enqueue_xbar(op) {
                            break;
                        }
                        let _ = self.prealign.pop_ready(idx, now);
                        assert(self.prealign.at(idx as int).outstanding_spec() < before);
                    }
                    idx = idx + 1;
                }
            },
        }
    }

    /// Arbitrate both crossbars, then move the operations that crossed them
    /// into the bank ports; an output stops at the first operation its bank
    /// refuses.
    fn process_xbar(&mut self, now: Cycle)
        requires
            old(self).wf(),
        ensures
            final(self).wf(),
            old(self).same_accounting(final(self)),
    {
        let ghost pre = *self;
        grant_crossbar(
            &mut self.read_xbar_inputs,
            &mut self.read_xbar_outputs,
            &mut self.read_xbar_masks,
            &self.config,
            now,
        );
        grant_crossbar(
            &mut self.write_xbar_inputs,
            &mut self.write_xbar_outputs,
            &mut self.write_xbar_masks,
            &self.config,
            now,
        );
        let outs = self.read_xbar_outputs.len();
        let mut output: usize = 0;
        while output < outs
            invariant
                self.wf(),
                pre.same_accounting(self),
                outs == self.read_xbar_outputs.len_spec(),
                outs == self.write_xbar_outputs.len_spec(),
                output <= outs,
            decreases outs - output,
        {
            loop
                invariant
                    self.wf(),
                    pre.same_accounting(self),
                    outs == self.read_xbar_outputs.len_spec(),
                    outs == self.write_xbar_outputs.len_spec(),
                    output < outs,
                ensures
                    self.wf(),
                    pre.same_accounting(self),
                    outs == self.read_xbar_outputs.len_spec(),
                    outs == self.write_xbar_outputs.len_spec(),
                decreases self.read_xbar_outputs.at(output as int).outstanding_spec(),
            {
                let ghost before = self.read_xbar_outputs.at(output as int).outstanding_spec();
                let op = match self.read_xbar_outputs.peek_ready(output, now) {
                    Some(ready) => ready.payload.duplicate(),
                    None => {
                        break;
                    },
                };
                if !self.enqueue_bank(now, op) {
                    break;
                }
                let _ = self.read_xbar_outputs.pop_ready(output, now);
                assert(self.read_xbar_outputs.at(output as int).outstanding_spec() < before);
            }
            output = output + 1;
        }
        let mut output: usize = 0;
        while output < outs
            invariant
                self.wf(),
                pre.same_accounting(self),
                outs == self.write_xbar_outputs.len_spec(),
                output <= outs,
            decreases outs - output,
        {
            loop
                invariant
                    self.wf(),
                    pre.same_accounting(self),
                    outs == self.write_xbar_outputs.len_spec(),
                    output < outs,
                ensures
                    self.wf(),
                    pre.same_accounting(self),
                    outs == self.write_xbar_outputs.len_spec(),
                decreases self.write_xbar_outputs.at(output as int).outstanding_spec(),
            {
                let ghost before = self.write_xbar_outputs.at(output as int).outstanding_spec();
                let op = match self.write_xbar_outputs.peek_ready(output, now) {
                    Some(ready) => ready.payload.duplicate(),
                    None => {
                        break;
                    },
                };
                if !self.enqueue_bank(now, op) {
                    break;
                }
                let _ = self.write_xbar_outputs.pop_ready(output, now);
                assert(self.write_xbar_outputs.at(output as int).outstanding_spec() < before);
            }
            output = output + 1;
        }
    }

    /// Completion tail of a completion: the store or read tails, at the
    /// request's first lane (clamped).
    /// The tail a completion goes to: write or read, and the lane of its
    /// first access (clamped to the tails there are).
    spec fn tail_of(&self, completion: SmemCompletion) -> (bool, usize) {
        let lane: usize = match completion.request.lane_ids {
            Some(lanes) => if lanes@.len() > 0 {
                lanes@[0]
            } else {
                0
            },
            None => 0,
        };
        let n = self.read_tail.len_spec();
        (completion.request.is_store, if lane < n - 1 { lane } else { (n - 1) as usize })
    }

    /// The tails of writes (`true`) or reads.
    spec fn tails(&self, is_store: bool) -> PortGroup<SmemCompletion> {
        if is_store {
            self.write_tail
        } else {
            self.read_tail
        }
    }

    /// How many of `cs` go to the tail `key`.
    spec fn tail_demand(&self, cs: Seq<SmemCompletion>, key: (bool, usize)) -> nat
        decreases cs.len(),
    {
        if cs.len() == 0 {
            0
        } else {
            self.tail_demand(cs.drop_last(), key) + if self.tail_of(cs.last()) == key {
                1nat
            } else {
                0nat
            }
        }
    }

    /// The tail `key` takes requests at `now` and has room for `need` more.
    spec fn tail_takes(&self, key: (bool, usize), now: Cycle, need: nat) -> bool {
        let t = self.tails(key.0).at(key.1 as int);
        &&& !t.is_full()
        &&& !t.is_warming(now)
        &&& t.cfg().queue_capacity - t.outstanding_spec() >= need
    }

    fn tail_key(&self, completion: &SmemCompletion) -> (r: (bool, usize))
        requires
            self.wf(),
        ensures
            r == self.tail_of(*completion),
            r.0 == completion.request.is_store,
            r.1 < self.read_tail.len_spec(),
            r.1 < self.write_tail.len_spec(),
    {
        let lane: usize = match &completion.request.lane_ids {
            Some(lanes) => if lanes.len() > 0 {
                lanes[0]
            } else {
                0
            },
            None => 0,
        };
        let n = self.read_tail.len();
        let idx = if lane < n - 1 {
            lane
        } else {
            n - 1
        };
        (completion.request.is_store, idx)
    }

    /// Whether every tail that `completions` need is ready and has room for
    /// all of them.
    fn can_enqueue_tail_batch(&self, now: Cycle, completions: &Vec<SmemCompletion>) -> (r: bool)
        requires
            self.wf(),
        ensures
            r == forall|j: int|
                0 <= j < completions@.len() ==> self.tail_takes(
                    #[trigger] self.tail_of(completions@[j]),
                    now,
                    self.tail_demand(completions@, self.tail_of(completions@[j])),
                ),
    {
        let n = completions.len();
        let mut j: usize = 0;
        while j < n
            invariant
                self.wf(),
                n == completions@.len(),
                j <= n,
                forall|i: int|
                    0 <= i < j ==> self.tail_takes(
                        #[trigger] self.tail_of(completions@[i]),
                        now,
                        self.tail_demand(completions@, self.tail_of(completions@[i])),
                    ),
            decreases n - j,
        {
            let key = self.tail_key(&completions[j]);
            let mut count: usize = 0;
            let mut k: usize = 0;
            while k < n
                invariant
                    self.wf(),
                    n == completions@.len(),
                    k <= n,
                    count <= k,
                    count == self.tail_demand(completions@.take(k as int), key),
                decreases n - k,
            {
                proof {
                    assert(completions@.take(k + 1).drop_last() =~= completions@.take(k as int));
                }
                let other = self.tail_key(&completions[k]);
                if other.0 == key.0 && other.1 == key.1 {
                    count = count + 1;
                }
                k = k + 1;
            }
            proof {
                assert(completions@.take(n as int) =~= completions@);
            }
            let (status, free) = if key.0 {
                (self.write_tail.accept_status(key.1, now), self.write_tail.available_slots(key.1))
            } else {
                (self.read_tail.accept_status(key.1, now), self.read_tail.available_slots(key.1))
            };
            match status {
                AcceptStatus::Ready => {},
                _ => {
                    return false;
                },
            }
            if free < count {
                return false;
            }
            j = j + 1;
        }
        true
    }

    /// Queue a finished request at its completion tail: reads pay one byte
    /// of service for the read-data pipe, write acks none.
    fn enqueue_tail(&mut self, now: Cycle, completion: SmemCompletion)
        requires
            old(self).wf(),
        ensures
            final(self).wf(),
            old(self).same_counters(final(self)),
            final(self).inflight == old(self).inflight,
            ({
                let key = old(self).tail_of(completion);
                let t0 = old(self).tails(key.0);
                let t1 = final(self).tails(key.0);
                let s0 = t0.at(key.1 as int);
                let s1 = t1.at(key.1 as int);
                let size: u32 = if key.0 { 0 } else { 1 };
                &&& final(self).tails(!key.0) == old(self).tails(!key.0)
                &&& t0.same_but(&t1, key.1 as int)
                &&& s0.is_full() ==> s0.refused_full(&s1)
                &&& !s0.is_full() && s0.is_warming(now) ==> s0.refused_busy(&s1)
                &&& !s0.is_full() && !s0.is_warming(now) ==> s0.accepted(&s1, now, completion, size, s1.pending().last().ticket)
            }),
            final(self).prealign == old(self).prealign,
            final(self).serial_gate == old(self).serial_gate,
            final(self).read_xbar_outputs == old(self).read_xbar_outputs,
            final(self).write_xbar_outputs == old(self).write_xbar_outputs,
            final(self).bank_read_ports == old(self).bank_read_ports,
            final(self).bank_write_ports == old(self).bank_write_ports,
            final(self).gemmini_read_ports == old(self).gemmini_read_ports,
            final(self).gemmini_write_ports == old(self).gemmini_write_ports,
    {
        let (is_store, idx) = self.tail_key(&completion);
        let ghost s0 = old(self).tails(is_store).at(idx as int);
        let res = if is_store {
            self.write_tail.try_enqueue(idx, now, ServiceRequest::new(completion, 0))
        } else {
            self.read_tail.try_enqueue(idx, now, ServiceRequest::new(completion, 1))
        };
        proof {
            let s1 = self.tails(is_store).at(idx as int);
            let size: u32 = if is_store { 0 } else { 1 };
            if let Ok(t) = res {
                assert(s0.accepted(&s1, now, completion, size, t));
                assert(s1.pending().last().ticket == t);
            }
        }
    }

    /// Position of the record of request `id`, if any.
    fn find_inflight(&self, id: u64) -> (r: Option<usize>)
        ensures
            r matches Some(i) ==> i < self.inflight@.len() && self.inflight@[i as int].request.id == id
                && forall|j: int| 0 <= j < i ==> (#[trigger] self.inflight@[j]).request.id != id,
            r is None ==> forall|j: int| 0 <= j < self.inflight@.len() ==> (#[trigger] self.inflight@[j]).request.id != id,
    {
        let n = self.inflight.len();
        let mut i: usize = 0;
        while i < n
            invariant
                n == self.inflight@.len(),
                i <= n,
                forall|j: int| 0 <= j < i ==> (#[trigger] self.inflight@[j]).request.id != id,
            decreases n - i,
        {
            if self.inflight[i].request.id == id {
                return Some(i);
            }
            i = i + 1;
        }
        None
    }

    /// The bank ports of the chosen group: Gemmini or core, write or read.
    spec fn bank_group(&self, gemmini: bool, is_store: bool) -> PortGroup<LaneOp> {
        if gemmini && is_store {
            self.gemmini_write_ports
        } else if gemmini {
            self.gemmini_read_ports
        } else if is_store {
            self.bank_write_ports
        } else {
            self.bank_read_ports
        }
    }

    /// The round-robin cursors of the chosen group.
    spec fn bank_rr(&self, gemmini: bool, is_store: bool) -> Seq<usize> {
        if gemmini && is_store {
            self.gemmini_write_rr@
        } else if gemmini {
            self.gemmini_read_rr@
        } else if is_store {
            self.bank_write_rr@
        } else {
            self.bank_read_rr@
        }
    }

    /// The per-bank in-flight counts of the chosen group.
    spec fn bank_counts(&self, gemmini: bool, is_store: bool) -> Seq<u64> {
        if gemmini && is_store {
            self.gemmini_write_inflight@
        } else if gemmini {
            self.gemmini_read_inflight@
        } else if is_store {
            self.bank_write_inflight@
        } else {
            self.bank_read_inflight@
        }
    }

    /// Everything but the chosen group's ports and in-flight counts is the
    /// same in `self` and `post`.
    spec fn same_but_group(&self, post: &Self, gemmini: bool, is_store: bool) -> bool {
        &&& self.same_counters(post)
        &&& post.inflight == self.inflight
        &&& post.prealign == self.prealign
        &&& post.serial_gate == self.serial_gate
        &&& post.read_xbar_inputs == self.read_xbar_inputs
        &&& post.write_xbar_inputs == self.write_xbar_inputs
        &&& post.read_xbar_outputs == self.read_xbar_outputs
        &&& post.write_xbar_outputs == self.write_xbar_outputs
        &&& post.read_tail == self.read_tail
        &&& post.write_tail == self.write_tail
        &&& !(gemmini && is_store) ==> post.gemmini_write_ports == self.gemmini_write_ports
            && post.gemmini_write_inflight == self.gemmini_write_inflight
        &&& !(gemmini && !is_store) ==> post.gemmini_read_ports == self.gemmini_read_ports
            && post.gemmini_read_inflight == self.gemmini_read_inflight
        &&& !(!gemmini && is_store) ==> post.bank_write_ports == self.bank_write_ports
            && post.bank_write_inflight == self.bank_write_inflight
        &&& !(!gemmini && !is_store) ==> post.bank_read_ports == self.bank_read_ports
            && post.bank_read_inflight == self.bank_read_inflight
    }

    /// Oldest ready operation of bank port `port` of the chosen group, with
    /// the cycle it became ready.
    fn peek_bank(&mut self, gemmini: bool, is_store: bool, port: usize, now: Cycle) -> (r: Option<(LaneOp, Cycle)>)
        requires
            old(self).wf(),
            port < (if is_store {
                old(self).bank_write_ports.len_spec()
            } else {
                old(self).bank_read_ports.len_spec()
            }),
        ensures
            final(self).wf(),
            old(self).same_counters(final(self)),
            final(self).inflight == old(self).inflight,
            old(self).same_but_group(final(self), gemmini, is_store),
            final(self).bank_counts(gemmini, is_store) == old(self).bank_counts(gemmini, is_store),
            ({
                let g = old(self).bank_group(gemmini, is_store);
                let g2 = final(self).bank_group(gemmini, is_store);
                let d = g2.at(port as int).done();
                &&& g.same_but(&g2, port as int)
                &&& g.at(port as int).advanced(&g2.at(port as int), now)
                &&& d.len() == 0 ==> r is None
                &&& d.len() > 0 ==> (r matches Some((op, at)) && op.same_as(&d[0].payload) && at == d[0].ticket.ready())
            }),
    {
        let found = if gemmini && is_store {
            self.gemmini_write_ports.peek_ready(port, now)
        } else if gemmini {
            self.gemmini_read_ports.peek_ready(port, now)
        } else if is_store {
            self.bank_write_ports.peek_ready(port, now)
        } else {
            self.bank_read_ports.peek_ready(port, now)
        };
        match found {
            Some(ready) => Some((ready.payload.duplicate(), ready.ticket.ready_at())),
            None => None,
        }
    }

    /// Take the oldest ready operation of bank port `port` of the chosen
    /// group, and count it out of its bank.
    fn pop_bank(&mut self, gemmini: bool, is_store: bool, port: usize, bank: usize, now: Cycle)
        requires
            old(self).wf(),
            bank < banks_of(old(self).config),
            port < (if is_store {
                old(self).bank_write_ports.len_spec()
            } else {
                old(self).bank_read_ports.len_spec()
            }),
        ensures
            final(self).wf(),
            old(self).same_counters(final(self)),
            final(self).inflight == old(self).inflight,
            old(self).same_but_group(final(self), gemmini, is_store),
            old(self).bank_group(gemmini, is_store).same_but(&final(self).bank_group(gemmini, is_store), port as int),
            ({
                let s0 = old(self).bank_group(gemmini, is_store).at(port as int);
                let s1 = final(self).bank_group(gemmini, is_store).at(port as int);
                s0.moved_at(now) == 0 && s0.done().len() > 0 ==> s1.outstanding_spec() == s0.outstanding_spec() - 1
            }),
            final(self).bank_counts(gemmini, is_store) == old(self).bank_counts(gemmini, is_store).update(
                bank as int,
                sat_sub(old(self).bank_counts(gemmini, is_store)[bank as int] as int, 1),
            ),
    {
        if gemmini && is_store {
            let _ = self.gemmini_write_ports.pop_ready(port, now);
            let v = self.gemmini_write_inflight[bank].saturating_sub(1);
            self.gemmini_write_inflight.set(bank, v);
        } else if gemmini {
            let _ = self.gemmini_read_ports.pop_ready(port, now);
            let v = self.gemmini_read_inflight[bank].saturating_sub(1);
            self.gemmini_read_inflight.set(bank, v);
        } else if is_store {
            let _ = self.bank_write_ports.pop_ready(port, now);
            let v = self.bank_write_inflight[bank].saturating_sub(1);
            self.bank_write_inflight.set(bank, v);
        } else {
            let _ = self.bank_read_ports.pop_ready(port, now);
            let v = self.bank_read_inflight[bank].saturating_sub(1);
            self.bank_read_inflight.set(bank, v);
        }
    }

    /// Retire the oldest ready operation of a bank port when the tails can
    /// take the completions it causes: every request it finishes (all of its
    /// accesses done, tail not yet entered) goes to its tail, ready at the
    /// latest bank-ready cycle of its accesses; then the operation leaves
    /// the port and its requests count its accesses as done.
    fn try_drain_bank_port(&mut self, now: Cycle, port: usize, bank: usize, is_store: bool, gemmini: bool)
        requires
            old(self).wf(),
            bank < banks_of(old(self).config),
            port < (if is_store {
                old(self).bank_write_ports.len_spec()
            } else {
                old(self).bank_read_ports.len_spec()
            }),
        ensures
            final(self).wf(),
            old(self).same_counters(final(self)),
    {
        let (op, bank_ready_at) = match self.peek_bank(gemmini, is_store, port, now) {
            Some(found) => found,
            None => {
                return;
            },
        };
        let counts = op.request_completion_counts();
        let mut completions: Vec<SmemCompletion> = Vec::new();
        let mut j: usize = 0;
        while j < counts.len()
            invariant
                j <= counts@.len(),
            decreases counts@.len() - j,
        {
            let (id, n) = counts[j];
            match self.find_inflight(id) {
                Some(i) => {
                    let state = &self.inflight[i];
                    let finishes = state.ops_completed.saturating_add(n) >= state.ops_total;
                    if finishes && !state.tail_enqueued {
                        let ready_at = max_u64(state.max_bank_ready_at, bank_ready_at);
                        completions.push(
                            SmemCompletion {
                                request: state.request.duplicate(),
                                ticket_ready_at: ready_at,
                                completed_at: ready_at,
                            },
                        );
                    }
                },
                None => {},
            }
            j = j + 1;
        }
        if !self.can_enqueue_tail_batch(now, &completions) {
            return;
        }
        let ghost pre = *self;
        while completions.len() > 0
            invariant
                self.wf(),
                pre.same_counters(self),
                self.inflight == pre.inflight,
                bank < banks_of(self.config),
                port < (if is_store {
                    self.bank_write_ports.len_spec()
                } else {
                    self.bank_read_ports.len_spec()
                }),
            decreases completions@.len(),
        {
            let completion = completions.remove(0);
            self.enqueue_tail(now, completion);
        }
        self.pop_bank(gemmini, is_store, port, bank, now);
        let mut j: usize = 0;
        while j < counts.len()
            invariant
                self.wf(),
                pre.same_counters(self),
                j <= counts@.len(),
            decreases counts@.len() - j,
        {
            let (id, n) = counts[j];
            match self.find_inflight(id) {
                Some(i) => {
                    let done = self.inflight[i].ops_completed.saturating_add(n);
                    let latest = max_u64(self.inflight[i].max_bank_ready_at, bank_ready_at);
                    let total = self.inflight[i].ops_total;
                    self.inflight[i].ops_completed = done;
                    self.inflight[i].max_bank_ready_at = latest;
                    if done >= total {
                        self.inflight[i].tail_enqueued = true;
                    }
                },
                None => {},
            }
            j = j + 1;
        }
    }

    /// Retire ready operations from every bank port: per bank and subbank,
    /// the Muon read and write ports, then the Gemmini ones.
    fn process_banked_array(&mut self, now: Cycle)
        requires
            old(self).wf(),
        ensures
            final(self).wf(),
            old(self).same_counters(final(self)),
    {
        let ghost pre = *self;
        let nb = self.bank_read_inflight.len();
        let ns = self.config.active_subbanks();
        let rp = self.config.read_ports_per_subbank();
        proof {
            lemma_product_bounds(nb as int, ns as int, rp as int);
        }
        let mut b: usize = 0;
        while b < nb
            invariant
                self.wf(),
                pre.same_counters(self),
                nb == banks_of(self.config),
                ns == self.config.active_subbanks_spec(),
                rp == read_ports_of(self.config),
                b <= nb,
            decreases nb - b,
        {
            let mut sb: usize = 0;
            while sb < ns
                invariant
                    self.wf(),
                    pre.same_counters(self),
                    nb == banks_of(self.config),
                    ns == self.config.active_subbanks_spec(),
                    rp == read_ports_of(self.config),
                    b < nb,
                    sb <= ns,
                decreases ns - sb,
            {
                proof {
                    lemma_product_bounds(nb as int, ns as int, rp as int);
                    lemma_flat_index(b as int, sb as int, rp - 1, nb as int, ns as int, rp as int);
                    lemma_flat_index(b as int, sb as int, 0, nb as int, ns as int, 1);
                }
                let g = b * ns + sb;
                let mut p: usize = 0;
                while p < rp
                    invariant
                        self.wf(),
                        pre.same_counters(self),
                        nb == banks_of(self.config),
                        b < nb,
                        g * rp + rp <= self.bank_read_ports.len_spec(),
                        p <= rp,
                    decreases rp - p,
                {
                    self.try_drain_bank_port(now, g * rp + p, b, false, false);
                    p = p + 1;
                }
                self.try_drain_bank_port(now, g, b, true, false);
                let mut p: usize = 0;
                while p < rp
                    invariant
                        self.wf(),
                        pre.same_counters(self),
                        nb == banks_of(self.config),
                        b < nb,
                        g * rp + rp <= self.bank_read_ports.len_spec(),
                        p <= rp,
                    decreases rp - p,
                {
                    self.try_drain_bank_port(now, g * rp + p, b, false, true);
                    p = p + 1;
                }
                self.try_drain_bank_port(now, g, b, true, true);
                sb = sb + 1;
            }
            b = b + 1;
        }
    }

    /// Drain the completion tails and finish their requests, read tails
    /// first.
    fn process_tail(&mut self, now: Cycle)
        requires
            old(self).wf(),
        ensures
            final(self).wf(),
            final(self).config == old(self).config,
            final(self).next_id == old(self).next_id,
            final(self).last_lane_busy == old(self).last_lane_busy,
            final(self).last_bank_busy == old(self).last_bank_busy,
            final(self).stats.max_completion_queue == old(self).stats.max_completion_queue,
            ({
                let before = old(self).completions@;
                let after = final(self).completions@;
                let added = after.skip(before.len() as int);
                &&& after.len() >= before.len()
                &&& after.take(before.len() as int) == before
                &&& forall|i: int| 0 <= i < added.len() ==> (#[trigger] added[i]).completed_at == now
                &&& final(self).total_inflight == sat_sub(old(self).total_inflight as int, added.len() as int)
                &&& stats_after_finishing(old(self).stats, final(self).stats, added, now, final(self).total_inflight)
            }),
            ({
                let n = old(self).read_tail.len_spec();
                let out = tail_out(old(self).read_tail, now, n) + tail_out(old(self).write_tail, now, n);
                let added = final(self).completions@.skip(old(self).completions@.len() as int);
                &&& added.len() == out.len()
                &&& forall|j: int| 0 <= j < out.len() ==> #[trigger] added[j] == (SmemCompletion { completed_at: now, ..out[j] })
            }),
            final(self).read_tail.len_spec() == old(self).read_tail.len_spec(),
            final(self).write_tail.len_spec() == old(self).write_tail.len_spec(),
            forall|i: int|
                0 <= i < old(self).read_tail.len_spec() ==> old(self).read_tail.at(i).serviced(
                    &#[trigger] final(self).read_tail.at(i),
                    now,
                ) && old(self).write_tail.at(i).serviced(&final(self).write_tail.at(i), now),
    {
        let mut done: Vec<SmemCompletion> = Vec::new();
        let n = self.read_tail.len();
        let ghost pre = *self;
        let mut i: usize = 0;
        while i < n
            invariant
                self.wf(),
                pre.same_counters(self),
                n == self.read_tail.len_spec(),
                n == self.write_tail.len_spec(),
                i <= n,
                self.write_tail == pre.write_tail,
                done@ == tail_out(pre.read_tail, now, i as nat),
                forall|j: int| 0 <= j < i ==> pre.read_tail.at(j).serviced(&#[trigger] self.read_tail.at(j), now),
                forall|j: int| i <= j < n ==> #[trigger] self.read_tail.at(j) == pre.read_tail.at(j),
            decreases n - i,
        {
            let ghost g = self.read_tail;
            let ghost d0 = done@;
            let mut results = self.read_tail.service_ready(i, now);
            let ghost r0 = results@;
            while results.len() > 0
                invariant
                    done@ + results@.map_values(|r: ServiceResult<SmemCompletion>| r.payload) == d0 + r0.map_values(
                        |r: ServiceResult<SmemCompletion>| r.payload,
                    ),
                decreases results@.len(),
            {
                let ghost rs = results@;
                let result = results.remove(0);
                done.push(result.payload);
                proof {
                    assert(rs.map_values(|r: ServiceResult<SmemCompletion>| r.payload) =~= seq![result.payload]
                        + results@.map_values(|r: ServiceResult<SmemCompletion>| r.payload));
                    assert(done@ + results@.map_values(|r: ServiceResult<SmemCompletion>| r.payload) =~= d0
                        + r0.map_values(|r: ServiceResult<SmemCompletion>| r.payload));
                }
            }
            proof {
                assert(done@ =~= d0 + r0.map_values(|r: ServiceResult<SmemCompletion>| r.payload));
                assert(g.at(i as int) == pre.read_tail.at(i as int));
                assert forall|j: int| 0 <= j < i + 1 implies pre.read_tail.at(j).serviced(
                    &#[trigger] self.read_tail.at(j),
                    now,
                ) by {
                    if j < i {
                        assert(self.read_tail.at(j) == g.at(j));
                    }
                }
                assert forall|j: int| i + 1 <= j < n implies #[trigger] self.read_tail.at(j) == pre.read_tail.at(j) by {
                    assert(self.read_tail.at(j) == g.at(j));
                }
            }
            i = i + 1;
        }
        let ghost d_read = done@;
        let mut i: usize = 0;
        while i < n
            invariant
                self.wf(),
                pre.same_counters(self),
                n == self.write_tail.len_spec(),
                n == self.read_tail.len_spec(),
                n == pre.read_tail.len_spec(),
                i <= n,
                done@ == d_read + tail_out(pre.write_tail, now, i as nat),
                d_read == tail_out(pre.read_tail, now, n as nat),
                forall|j: int| 0 <= j < n ==> pre.read_tail.at(j).serviced(&#[trigger] self.read_tail.at(j), now),
                forall|j: int| 0 <= j < i ==> pre.write_tail.at(j).serviced(&#[trigger] self.write_tail.at(j), now),
                forall|j: int| i <= j < n ==> #[trigger] self.write_tail.at(j) == pre.write_tail.at(j),
            decreases n - i,
        {
            let ghost g = self.write_tail;
            let ghost rt = self.read_tail;
            let ghost d0 = done@;
            let mut results = self.write_tail.service_ready(i, now);
            let ghost r0 = results@;
            while results.len() > 0
                invariant
                    done@ + results@.map_values(|r: ServiceResult<SmemCompletion>| r.payload) == d0 + r0.map_values(
                        |r: ServiceResult<SmemCompletion>| r.payload,
                    ),
                decreases results@.len(),
            {
                let ghost rs = results@;
                let result = results.remove(0);
                done.push(result.payload);
                proof {
                    assert(rs.map_values(|r: ServiceResult<SmemCompletion>| r.payload) =~= seq![result.payload]
                        + results@.map_values(|r: ServiceResult<SmemCompletion>| r.payload));
                    assert(done@ + results@.map_values(|r: ServiceResult<SmemCompletion>| r.payload) =~= d0
                        + r0.map_values(|r: ServiceResult<SmemCompletion>| r.payload));
                }
            }
            proof {
                assert(done@ =~= d0 + r0.map_values(|r: ServiceResult<SmemCompletion>| r.payload));
                assert(d_read + tail_out(pre.write_tail, now, (i + 1) as nat) =~= d0 + r0.map_values(
                    |r: ServiceResult<SmemCompletion>| r.payload,
                ));
                assert(g.at(i as int) == pre.write_tail.at(i as int));
                assert(self.read_tail == rt);
                assert forall|j: int| 0 <= j < i + 1 implies pre.write_tail.at(j).serviced(
                    &#[trigger] self.write_tail.at(j),
                    now,
                ) by {
                    if j < i {
                        assert(self.write_tail.at(j) == g.at(j));
                    }
                }
                assert forall|j: int| i + 1 <= j < n implies #[trigger] self.write_tail.at(j) == pre.write_tail.at(j) by {
                    assert(self.write_tail.at(j) == g.at(j));
                }
            }
            i = i + 1;
        }
        let ghost all_out = done@;
        let ghost rt_end = self.read_tail;
        let ghost wt_end = self.write_tail;
        let ghost c0 = self.completions@;
        let ghost t0 = self.total_inflight;
        let ghost s0 = self.stats;
        let base = self.completions.len();
        let mut k: usize = 0;
        proof {
            assert(self.completions@.skip(c0.len() as int) =~= Seq::<SmemCompletion>::empty());
            assert(self.completions@.take(c0.len() as int) =~= c0);
            assert(done@.skip(0) =~= all_out);
        }
        while done.len() > 0
            invariant
                self.read_tail == rt_end,
                self.write_tail == wt_end,
                k <= all_out.len(),
                done@ == all_out.skip(k as int),
                forall|j: int|
                    0 <= j < k ==> #[trigger] self.completions@.skip(c0.len() as int)[j] == (SmemCompletion {
                        completed_at: now,
                        ..all_out[j]
                    }),
                self.wf(),
                self.config == pre.config,
                self.next_id == pre.next_id,
                self.last_lane_busy == pre.last_lane_busy,
                self.last_bank_busy == pre.last_bank_busy,
                self.stats.max_completion_queue == pre.stats.max_completion_queue,
                c0 == pre.completions@,
                base == c0.len(),
                t0 == pre.total_inflight,
                s0 == pre.stats,
                self.completions@.len() == c0.len() + k,
                self.completions@.take(c0.len() as int) == c0,
                forall|j: int|
                    0 <= j < k ==> (#[trigger] self.completions@.skip(c0.len() as int)[j]).completed_at == now,
                self.total_inflight == sat_sub(t0 as int, k as int),
                stats_after_finishing(
                    s0,
                    self.stats,
                    self.completions@.skip(c0.len() as int),
                    now,
                    self.total_inflight,
                ),
            decreases done@.len(),
        {
            let ghost dn = done@;
            let completion = done.remove(0);
            let ghost added = self.completions@.skip(c0.len() as int);
            self.finish_request(now, completion);
            proof {
                let added2 = self.completions@.skip(c0.len() as int);
                assert(added2.drop_last() =~= added);
                assert(self.completions@.take(c0.len() as int) =~= c0);
                lemma_stores_bounded(added);
                assert forall|j: int| 0 <= j < k + 1 implies (#[trigger] added2[j]).completed_at == now by {
                    if j < k {
                        assert(added2[j] == added[j]);
                    }
                }
                assert(completion == all_out[k as int]);
                assert forall|j: int| 0 <= j < k + 1 implies #[trigger] added2[j] == (SmemCompletion {
                    completed_at: now,
                    ..all_out[j]
                }) by {
                    if j < k {
                        assert(added2[j] == added[j]);
                    }
                }
                assert(done@ =~= all_out.skip(k + 1));
            }
            k = self.completions.len() - base;
        }
    }

    /// Stamp a request finished at `now`, count it, forget its record and
    /// hand it to the caller.
    fn finish_request(&mut self, now: Cycle, completion: SmemCompletion)
        requires
            old(self).wf(),
        ensures
            final(self).wf(),
            final(self).config == old(self).config,
            final(self).next_id == old(self).next_id,
            final(self).last_lane_busy == old(self).last_lane_busy,
            final(self).last_bank_busy == old(self).last_bank_busy,
            final(self).completions@ == old(self).completions@.push(
                SmemCompletion { completed_at: now, ..completion },
            ),
            final(self).read_tail == old(self).read_tail,
            final(self).write_tail == old(self).write_tail,
            final(self).total_inflight == sat_sub(old(self).total_inflight as int, 1),
            final(self).stats.completed == sat_add(old(self).stats.completed as int, 1),
            final(self).stats.write_completed == if completion.request.is_store {
                sat_add(old(self).stats.write_completed as int, 1)
            } else {
                old(self).stats.write_completed
            },
            final(self).stats.read_completed == if completion.request.is_store {
                old(self).stats.read_completed
            } else {
                sat_add(old(self).stats.read_completed as int, 1)
            },
            final(self).stats.bytes_completed == sat_add(
                old(self).stats.bytes_completed as int,
                completion.request.bytes as int,
            ),
            final(self).stats.inflight == final(self).total_inflight,
            final(self).stats.last_completion_cycle == Some(now),
            final(self).stats == (SmemStats {
                completed: final(self).stats.completed,
                write_completed: final(self).stats.write_completed,
                read_completed: final(self).stats.read_completed,
                bytes_completed: final(self).stats.bytes_completed,
                inflight: final(self).stats.inflight,
                last_completion_cycle: final(self).stats.last_completion_cycle,
                ..old(self).stats
            }),
    {
        let mut completion = completion;
        completion.completed_at = now;
        let is_store = completion.request.is_store;
        let bytes = completion.request.bytes as u64;
        self.stats.completed = self.stats.completed.saturating_add(1);
        if is_store {
            self.stats.write_completed = self.stats.write_completed.saturating_add(1);
        } else {
            self.stats.read_completed = self.stats.read_completed.saturating_add(1);
        }
        self.stats.bytes_completed = self.stats.bytes_completed.saturating_add(bytes);
        self.total_inflight = self.total_inflight.saturating_sub(1);
        self.stats.inflight = self.total_inflight;
        self.stats.last_completion_cycle = Some(now);
        match self.find_inflight(completion.request.id) {
            Some(i) => {
                let _ = self.inflight.remove(i);
            },
            None => {},
        }
        self.completions.push_back(completion);
    }

    /// Hand `op` to a free port of its bank and subbank (clamped to the
    /// configured ones), scanning the ports round robin; false when every
    /// port refuses it.
    fn enqueue_bank(&mut self, now: Cycle, op: LaneOp) -> (r: bool)
        requires
            old(self).wf(),
        ensures
            final(self).wf(),
            old(self).same_accounting(final(self)),
            final(self).prealign == old(self).prealign,
            final(self).serial_gate == old(self).serial_gate,
            final(self).read_xbar_outputs == old(self).read_xbar_outputs,
            final(self).write_xbar_outputs == old(self).write_xbar_outputs,
            final(self).read_xbar_inputs == old(self).read_xbar_inputs,
            final(self).write_xbar_inputs == old(self).write_xbar_inputs,
            final(self).read_tail == old(self).read_tail,
            final(self).write_tail == old(self).write_tail,
            ({
                let gm = op.client == SmemClientKind::Gemmini;
                let st = op.is_store;
                let nb = banks_of(old(self).config);
                let ns = old(self).config.active_subbanks_spec() as int;
                let b = if op.bank < nb - 1 { op.bank as int } else { nb - 1 };
                let sb = if op.subbank < ns - 1 { op.subbank as int } else { ns - 1 };
                let count = if st { 1 } else { read_ports_of(old(self).config) };
                &&& old(self).same_but_group(final(self), gm, st)
                &&& port_enqueued(
                    old(self).bank_group(gm, st),
                    final(self).bank_group(gm, st),
                    old(self).bank_rr(gm, st),
                    final(self).bank_rr(gm, st),
                    old(self).bank_counts(gm, st),
                    final(self).bank_counts(gm, st),
                    (b * ns + sb) as usize,
                    count as usize,
                    b as usize,
                    now,
                    op,
                    r,
                )
            }),
    {
        let nb = self.bank_read_inflight.len();
        let ns = self.config.active_subbanks();
        let rp = self.config.read_ports_per_subbank();
        let b = if op.bank < nb - 1 {
            op.bank
        } else {
            nb - 1
        };
        let sb = if op.subbank < ns - 1 {
            op.subbank
        } else {
            ns - 1
        };
        proof {
            lemma_product_bounds(nb as int, ns as int, rp as int);
            lemma_flat_index(b as int, sb as int, rp - 1, nb as int, ns as int, rp as int);
            lemma_flat_index(b as int, sb as int, 0, nb as int, ns as int, 1);
        }
        let g = b * ns + sb;
        let gemmini = match op.client {
            SmemClientKind::Gemmini => true,
            _ => false,
        };
        if gemmini && op.is_store {
            enqueue_port(&mut self.gemmini_write_ports, &mut self.gemmini_write_rr, &mut self.gemmini_write_inflight, g, 1, b, now, op)
        } else if gemmini {
            enqueue_port(&mut self.gemmini_read_ports, &mut self.gemmini_read_rr, &mut self.gemmini_read_inflight, g, rp, b, now, op)
        } else if op.is_store {
            enqueue_port(&mut self.bank_write_ports, &mut self.bank_write_rr, &mut self.bank_write_inflight, g, 1, b, now, op)
        } else {
            enqueue_port(&mut self.bank_read_ports, &mut self.bank_read_rr, &mut self.bank_read_inflight, g, rp, b, now, op)
        }
    }
}

/// What the first `n` servers of `group` hand out when serviced at `now`,
/// server by server, in order.
pub open spec fn tail_out(group: PortGroup<SmemCompletion>, now: Cycle, n: nat) -> Seq<SmemCompletion>
    decreases n,
{
    if n == 0 {
        Seq::empty()
    } else {
        tail_out(group, now, (n - 1) as nat) + group.at(n - 1).serviced_out(now).map_values(
            |r: ServiceResult<SmemCompletion>| r.payload,
        )
    }
}

/// The crossbar output that serves `subbank` (clamped to the last one).
pub open spec fn xbar_output_spec(config: SmemFlowConfig, subbank: usize) -> usize {
    if subbank < config.active_subbanks_spec() {
        subbank
    } else {
        (config.active_subbanks_spec() - 1) as usize
    }
}

/// Input `i` has an operation waiting whose oldest one targets `output`.
pub open spec fn contends(qs: Seq<VecDeque<LaneOp>>, i: int, output: usize, config: SmemFlowConfig) -> bool {
    &&& qs[i]@.len() > 0
    &&& xbar_output_spec(config, qs[i]@[0].subbank) == output
}

/// The most urgent client priority among the first `n` inputs contending
/// for `output` (`usize::MAX` when none contends).
pub open spec fn best_priority(qs: Seq<VecDeque<LaneOp>>, n: int, output: usize, config: SmemFlowConfig) -> int
    decreases n,
{
    if n <= 0 {
        usize::MAX as int
    } else {
        let rest = best_priority(qs, n - 1, output, config);
        if contends(qs, n - 1, output, config) && (client_priority_spec(qs[n - 1]@[0].client) as int) < rest {
            client_priority_spec(qs[n - 1]@[0].client) as int
        } else {
            rest
        }
    }
}

/// Input `i` (below `n`) competes for `output`: it contends with an
/// operation of the most urgent priority present.
pub open spec fn in_pool(qs: Seq<VecDeque<LaneOp>>, n: int, output: usize, config: SmemFlowConfig, i: int) -> bool {
    &&& 0 <= i < n
    &&& contends(qs, i, output, config)
    &&& client_priority_spec(qs[i]@[0].client) as int == best_priority(qs, n, output, config)
}

proof fn lemma_best_priority(qs: Seq<VecDeque<LaneOp>>, n: int, output: usize, config: SmemFlowConfig)
    requires
        0 <= n <= qs.len(),
    ensures
        forall|j: int| 0 <= j < n && contends(qs, j, output, config) ==> best_priority(qs, n, output, config)
            <= client_priority_spec(#[trigger] qs[j]@[0].client) as int,
        best_priority(qs, n, output, config) == usize::MAX as int || exists|j: int|
            0 <= j < n && contends(qs, j, output, config) && best_priority(qs, n, output, config)
                == client_priority_spec(#[trigger] qs[j]@[0].client) as int,
        (exists|j: int| 0 <= j < n && #[trigger] contends(qs, j, output, config)) ==> best_priority(qs, n, output, config)
            < usize::MAX as int,
    decreases n,
{
    if n > 0 {
        lemma_best_priority(qs, n - 1, output, config);
        if exists|j: int| 0 <= j < n && #[trigger] contends(qs, j, output, config) {
            let j = choose|j: int| 0 <= j < n && #[trigger] contends(qs, j, output, config);
            assert(client_priority_spec(qs[j]@[0].client) <= 2);
        }
    }
}

/// At a crossbar output, the inputs that compete are those whose oldest
/// operation targets it and comes from the most urgent client present:
/// Gemmini operations go before Muon ones, and Muon ones before external
/// ones. A Muon input competes only when no Gemmini input targets the
/// output, an external one only when no Gemmini or Muon input does; some
/// input competes whenever one targets the output.
pub proof fn lemma_crossbar_client_order(qs: Seq<VecDeque<LaneOp>>, n: int, output: usize, config: SmemFlowConfig, i: int)
    requires
        0 <= n <= qs.len(),
    ensures
        in_pool(qs, n, output, config, i) && qs[i]@[0].client == SmemClientKind::Muon ==> forall|j: int|
            0 <= j < n && contends(qs, j, output, config) ==> (#[trigger] qs[j]@[0]).client != SmemClientKind::Gemmini,
        in_pool(qs, n, output, config, i) && qs[i]@[0].client == SmemClientKind::External ==> forall|j: int|
            0 <= j < n && contends(qs, j, output, config) ==> (#[trigger] qs[j]@[0]).client == SmemClientKind::External,
        (exists|j: int| 0 <= j < n && #[trigger] contends(qs, j, output, config)) ==> exists|k: int| #[trigger] in_pool(
            qs,
            n,
            output,
            config,
            k,
        ),
{
    lemma_best_priority(qs, n, output, config);
    if exists|j: int| 0 <= j < n && #[trigger] contends(qs, j, output, config) {
        let k = choose|j: int|
            0 <= j < n && contends(qs, j, output, config) && best_priority(qs, n, output, config)
                == client_priority_spec(#[trigger] qs[j]@[0].client) as int;
        assert(in_pool(qs, n, output, config, k));
    }
    assert forall|j: int| in_pool(qs, n, output, config, i) && 0 <= j < n && contends(qs, j, output, config) implies {
        &&& qs[i]@[0].client == SmemClientKind::Muon ==> (#[trigger] qs[j]@[0]).client != SmemClientKind::Gemmini
        &&& qs[i]@[0].client == SmemClientKind::External ==> qs[j]@[0].client == SmemClientKind::External
    } by {
        assert(best_priority(qs, n, output, config) <= client_priority_spec(qs[j]@[0].client) as int);
    }
}

/// The input that wins `output` this round, round robin from `mask` among
/// the competing inputs (see `in_pool`), with the next mask; none when no
/// input targets the output.
fn pick_input(queues: &Vec<VecDeque<LaneOp>>, limit: usize, output: usize, config: &SmemFlowConfig, mask: u32) -> (r: Option<
    (usize, u32),
>)
    requires
        1 <= limit <= queues@.len(),
        limit <= 32,
    ensures
        r matches Some(x) ==> in_pool(queues@, limit as int, output, *config, x.0 as int),
        r is None ==> forall|j: int| 0 <= j < limit ==> !contends(queues@, j, output, *config),
{
    let mut best: usize = usize::MAX;
    let mut input: usize = 0;
    while input < limit
        invariant
            limit <= queues@.len(),
            input <= limit,
            best as int == best_priority(queues@, input as int, output, *config),
        decreases limit - input,
    {
        if queues[input].len() > 0 {
            let front = &queues[input][0];
            if config.xbar_output_for_target(front.bank, front.subbank) == output {
                let p = crate::timeflow::smem::arbiter::client_priority(front.client);
                if p < best {
                    best = p;
                }
            }
        }
        input = input + 1;
    }
    proof {
        lemma_best_priority(queues@, limit as int, output, *config);
    }
    if best == usize::MAX {
        return None;
    }
    let mut valid: u32 = 0;
    let mut input: usize = 0;
    proof {
        assert forall|i: int| 0 <= i < 32 implies !has_bit(valid, i) by {
            lemma_has_bit_zero(i);
        }
    }
    while input < limit
        invariant
            limit <= queues@.len(),
            limit <= 32,
            input <= limit,
            best as int == best_priority(queues@, limit as int, output, *config),
            forall|i: int| 0 <= i < input ==> (has_bit(valid, i) <==> in_pool(queues@, limit as int, output, *config, i)),
            forall|i: int| input <= i < 32 ==> !has_bit(valid, i),
        decreases limit - input,
    {
        let ghost v0 = valid;
        if queues[input].len() > 0 {
            let front = &queues[input][0];
            if config.xbar_output_for_target(front.bank, front.subbank) == output
                && crate::timeflow::smem::arbiter::client_priority(front.client) == best {
                let bit: u32 = 1u32 << (input as u32);
                valid = valid | bit;
            }
        }
        proof {
            assert forall|i: int| 0 <= i < input + 1 implies (has_bit(valid, i) <==> in_pool(queues@, limit as int, output, *config, i)) by {
                lemma_has_bit_or(v0, input as u32, i);
            }
            assert forall|i: int| input + 1 <= i < 32 implies !has_bit(valid, i) by {
                lemma_has_bit_or(v0, input as u32, i);
            }
        }
        input = input + 1;
    }
    let ghost n = clamp_inputs(limit);
    proof {
        assert(n == limit as nat);
        let k = choose|j: int| 0 <= j < limit && contends(queues@, j, output, *config) && best_priority(queues@, limit as int, output, *config)
            == client_priority_spec(#[trigger] queues@[j]@[0].client) as int;
        assert(in_pool(queues@, limit as int, output, *config, k));
        assert(has_bit(valid, k));
        lemma_all_bits_has(n, k);
        lemma_has_bit_and(valid, all_bits(n), k);
        lemma_top_bit_found(valid & all_bits(n), n as int, k);
        let va = valid & all_bits(n);
        let um = va & !mask & all_bits(n);
        lemma_top_bit(um, n as int);
        lemma_top_bit(va, n as int);
        let t1 = top_bit(um, n as int);
        let t2 = top_bit(va, n as int);
        if t1 >= 0 {
            lemma_has_bit_and(va & !mask, all_bits(n), t1);
            lemma_has_bit_and(va, !mask, t1);
            lemma_has_bit_and(valid, all_bits(n), t1);
        }
        if t2 >= 0 {
            lemma_has_bit_and(valid, all_bits(n), t2);
        }
    }
    let (winner, new_mask) = crate::timeflow::smem::arbiter::chisel_rr_winner(valid, mask, limit);
    Some((winner, new_mask))
}

/// One arbitration round of a crossbar: every output that can take a
/// request grants, among the inputs (at most 32) whose oldest operation
/// targets it, those of the best client priority, picking one round robin;
/// the winner's oldest operation moves to the output.
fn grant_crossbar(
    queues: &mut Vec<VecDeque<LaneOp>>,
    outputs: &mut PortGroup<LaneOp>,
    masks: &mut Vec<u32>,
    config: &SmemFlowConfig,
    now: Cycle,
)
    requires
        old(outputs).wf(),
        old(masks)@.len() == old(outputs).len_spec(),
    ensures
        final(outputs).wf(),
        final(outputs).len_spec() == old(outputs).len_spec(),
        final(masks)@.len() == old(masks)@.len(),
        final(queues)@.len() == old(queues)@.len(),
{
    let num_inputs = queues.len();
    if num_inputs == 0 {
        return;
    }
    let limit: usize = if num_inputs < 32 {
        num_inputs
    } else {
        32
    };
    let num_outputs = outputs.len();
    let mut output: usize = 0;
    while output < num_outputs
        invariant
            outputs.wf(),
            outputs.len_spec() == num_outputs,
            masks@.len() == num_outputs,
            queues@.len() == num_inputs,
            1 <= limit,
            limit <= num_inputs,
            limit <= 32,
            output <= num_outputs,
        decreases num_outputs - output,
    {
        match outputs.accept_status(output, now) {
            AcceptStatus::Ready => {
                match pick_input(queues, limit, output, config, masks[output]) {
                    Some((winner, new_mask)) => {
                        masks.set(output, new_mask);
                        if winner < num_inputs {
                            match queues[winner].pop_front() {
                                Some(op) => {
                                    let size: u32 = if op.bytes == 0 {
                                        1
                                    } else {
                                        op.bytes
                                    };
                                    let _ = outputs.try_enqueue(output, now, ServiceRequest::new(op, size));
                                },
                                None => {},
                            }
                        }
                    },
                    None => {},
                }
            },
            _ => {},
        }
        output = output + 1;
    }
}

/// The shared-memory request carried by `request`.
pub fn extract_smem_request(request: ServiceRequest<CoreFlowPayload>) -> (r: SmemRequest)
    requires
        request.payload is Smem,
    ensures
        r == request.payload->Smem_0,
{
    match request.payload {
        CoreFlowPayload::Smem(req) => req,
        CoreFlowPayload::Gmem(_) => {
            proof {
                assert(false);
            }
            SmemRequest::new(0, 0, 0, false, 0)
        },
    }
}

/// `op` went to the first port of group `g` (ports `g * count` onward)
/// that is neither full nor warming up, scanning round robin, and was
/// counted at `bank` (`r`); or every such port refused and nothing changed.
pub open spec fn port_enqueued(
    ports: PortGroup<LaneOp>,
    ports2: PortGroup<LaneOp>,
    rr: Seq<usize>,
    rr2: Seq<usize>,
    counters: Seq<u64>,
    counters2: Seq<u64>,
    g: usize,
    count: usize,
    bank: usize,
    now: Cycle,
    op: LaneOp,
    r: bool,
) -> bool {
    &&& r == exists|p: int| 0 <= p < count && !#[trigger] ports.blocked(g * count + p, now)
    &&& !r ==> ports2 == ports && rr2 == rr && counters2 == counters
    &&& r ==> exists|p: int|
        0 <= p < count && !#[trigger] ports.blocked(g * count + p, now) && rr2 == rr.update(
            g as int,
            ((p + 1) % (count as int)) as usize,
        ) && counters2 == counters.update(bank as int, sat_add(counters[bank as int] as int, 1))
            && ports.same_but(&ports2, g * count + p) && ports.at(g * count + p).accepted(
            &ports2.at(g * count + p),
            now,
            op,
            1,
            ports2.at(g * count + p).pending().last().ticket,
        )
}

/// A bank operation takes a port of its group exactly when one of them is
/// neither full nor warming up: it then joins that port's queue (one more
/// request outstanding there, at `now`), the group's cursor moves just
/// past it and the bank's in-flight count grows by one; when every port
/// of the group is full or warming up, nothing changes.
pub proof fn lemma_port_choice(
    ports: PortGroup<LaneOp>,
    ports2: PortGroup<LaneOp>,
    rr: Seq<usize>,
    rr2: Seq<usize>,
    counters: Seq<u64>,
    counters2: Seq<u64>,
    g: usize,
    count: usize,
    bank: usize,
    now: Cycle,
    op: LaneOp,
    r: bool,
)
    requires
        port_enqueued(ports, ports2, rr, rr2, counters, counters2, g, count, bank, now, op, r),
        g < rr.len(),
        bank < counters.len(),
    ensures
        !r ==> (forall|p: int| 0 <= p < count ==> #[trigger] ports.at(g * count + p).is_full() || ports.at(g * count + p).is_warming(now))
            && ports2 == ports && counters2 == counters,
        r ==> exists|p: int|
            0 <= p < count && !(#[trigger] ports.at(g * count + p)).is_full() && !ports.at(g * count + p).is_warming(now)
                && ports2.at(g * count + p).outstanding_spec() == ports.at(g * count + p).outstanding_spec() + 1
                && rr2[g as int] == (p + 1) % (count as int) && counters2[bank as int] == sat_add(counters[bank as int] as int, 1),
{
    if !r {
        assert forall|p: int| 0 <= p < count implies #[trigger] ports.at(g * count + p).is_full() || ports.at(g * count + p).is_warming(now) by {
            assert(ports.blocked(g * count + p, now));
        }
    } else {
        let p = choose|p: int|
            0 <= p < count && !#[trigger] ports.blocked(g * count + p, now) && rr2 == rr.update(
                g as int,
                ((p + 1) % (count as int)) as usize,
            ) && counters2 == counters.update(bank as int, sat_add(counters[bank as int] as int, 1))
                && ports.same_but(&ports2, g * count + p) && ports.at(g * count + p).accepted(
                &ports2.at(g * count + p),
                now,
                op,
                1,
                ports2.at(g * count + p).pending().last().ticket,
            );
        assert(!ports.at(g * count + p).is_full());
        assert(rr2[g as int] == ((p + 1) % (count as int)) as usize);
        assert(counters2[bank as int] == sat_add(counters[bank as int] as int, 1));
        assert(ports2.at(g * count + p).outstanding_spec() == ports.at(g * count + p).outstanding_spec() + 1);
    }
}

/// Hand `op` to the first port of group `g` (ports `[g * count, g * count +
/// count)`) that accepts it, scanning round robin from the group's cursor,
/// and count it in flight in `bank`.
fn enqueue_port(
    ports: &mut PortGroup<LaneOp>,
    rr: &mut Vec<usize>,
    counters: &mut Vec<u64>,
    g: usize,
    count: usize,
    bank: usize,
    now: Cycle,
    op: LaneOp,
) -> (r: bool)
    requires
        old(ports).wf(),
        g < old(rr)@.len(),
        bank < old(counters)@.len(),
        g * count + count <= old(ports).len_spec(),
        g * count + count <= usize::MAX,
    ensures
        final(ports).wf(),
        final(ports).len_spec() == old(ports).len_spec(),
        final(rr)@.len() == old(rr)@.len(),
        final(counters)@.len() == old(counters)@.len(),
        port_enqueued(*old(ports), *final(ports), old(rr)@, final(rr)@, old(counters)@, final(counters)@, g, count, bank, now, op, r),
{
    let mut cursor = rr[g];
    let base = g * count;
    match ports.pick_ready(base, count, &mut cursor, now) {
        Some(p) => {
            let ghost p0 = *ports;
            rr.set(g, cursor);
            let res = ports.try_enqueue(base + p, now, ServiceRequest::new(op, 1));
            let v = counters[bank].saturating_add(1);
            counters.set(bank, v);
            proof {
                assert(!p0.blocked(g * count + p, now));
                if let Ok(t) = res {
                    assert(ports.at(g * count + p).pending().last().ticket == t);
                }
            }
            true
        },
        None => false,
    }
}

} // verus!
