//! The instruction cache: each fetch goes to a hit path or a miss path, two
//! timed servers, chosen per line by a hash rule.

use crate::timeflow::gmem::policy::{
    hash_rule_holds, line_addr, line_addr_spec, rule_applies, HashRule,
};
use crate::timeq::{
    max_spec, max_u64, sat_add, Backpressure, Cycle, ServerConfig, ServiceRequest, ServiceResult,
    Ticket, TimedServer,
};
use vstd::prelude::*;

verus! {

#[derive(Debug, Clone, Copy)]
pub struct IcacheStats {
    pub issued: u64,
    pub completed: u64,
    pub hits: u64,
    pub misses: u64,
    pub queue_full_rejects: u64,
    pub busy_rejects: u64,
    pub bytes_issued: u64,
    pub bytes_completed: u64,
    pub last_completion_cycle: Option<Cycle>,
}

impl IcacheStats {
    /// All counters zero and no completion yet.
    pub open spec fn zeroed() -> Self {
        IcacheStats {
            issued: 0,
            completed: 0,
            hits: 0,
            misses: 0,
            queue_full_rejects: 0,
            busy_rejects: 0,
            bytes_issued: 0,
            bytes_completed: 0,
            last_completion_cycle: None,
        }
    }
}

impl Default for IcacheStats {
    fn default() -> (r: Self)
        ensures
            r == Self::zeroed(),
    {
        Self {
            issued: 0,
            completed: 0,
            hits: 0,
            misses: 0,
            queue_full_rejects: 0,
            busy_rejects: 0,
            bytes_issued: 0,
            bytes_completed: 0,
            last_completion_cycle: None,
        }
    }
}

#[derive(Debug, Clone, Copy, PartialEq, Eq, Structural)]
pub enum IcacheRejectReason {
    QueueFull,
    Busy,
}

#[derive(Debug, Clone)]
pub struct IcacheRequest {
    pub id: u64,
    pub core_id: usize,
    pub warp: usize,
    pub pc: u64,
    pub line_addr: u64,
    pub bytes: u32,
    pub miss: bool,
}

impl IcacheRequest {
    /// A fetch of `bytes` bytes at `pc` for warp `warp`; its id, core, line
    /// and outcome are filled in later.
    pub fn new(warp: usize, pc: u32, bytes: u32) -> (r: Self)
        ensures
            r.id == 0,
            r.core_id == 0,
            r.warp == warp,
            r.pc == pc as u64,
            r.line_addr == 0,
            r.bytes == bytes,
            !r.miss,
    {
        Self { id: 0, core_id: 0, warp, pc: pc as u64, line_addr: 0, bytes, miss: false }
    }
}

#[derive(Debug, Clone)]
pub struct IcacheIssue {
    pub ticket: Ticket,
}

#[derive(Debug, Clone)]
pub struct IcacheReject {
    pub request: IcacheRequest,
    pub retry_at: Cycle,
    pub reason: IcacheRejectReason,
}

/// How fetches are split between the two paths: `hit` selects the lines
/// (line index xor `seed`) that hit; lines are `line_bytes` bytes (at least
/// one).
#[derive(Debug, Clone, Copy)]
pub struct IcachePolicyConfig {
    pub hit: HashRule,
    pub line_bytes: u32,
    pub seed: u64,
}

/// Ninety-eight lines in a hundred hit: those whose hash is at most 0.98 of
/// the hash range.
pub open spec fn default_hit_rule() -> HashRule {
    HashRule::HashAtMost(0xfae1_47ae_147a_e000u64)
}

impl Default for IcachePolicyConfig {
    fn default() -> (r: Self)
        ensures
            r.hit == default_hit_rule(),
            r.line_bytes == 32,
            r.seed == 0,
    {
        Self { hit: HashRule::HashAtMost(0xfae1_47ae_147a_e000), line_bytes: 32, seed: 0 }
    }
}

#[derive(Debug, Clone, Copy)]
pub struct IcacheFlowConfig {
    pub hit: ServerConfig,
    pub miss: ServerConfig,
    pub policy: IcachePolicyConfig,
}

impl IcacheFlowConfig {
    /// Both paths can be built.
    pub open spec fn valid(self) -> bool {
        self.hit.valid() && self.miss.valid()
    }
}

impl IcacheFlowConfig {
    /// The values that `default()` gives.
    pub open spec fn is_default(self) -> bool {
        &&& self.hit == (ServerConfig {
            base_latency: 0,
            bytes_per_cycle: 1,
            queue_capacity: 16,
            completions_per_cycle: u32::MAX,
            warmup_latency: 0,
        })
        &&& self.miss == (ServerConfig {
            base_latency: 40,
            bytes_per_cycle: 1,
            queue_capacity: 8,
            completions_per_cycle: u32::MAX,
            warmup_latency: 0,
        })
        &&& self.policy.hit == default_hit_rule()
        &&& self.policy.line_bytes == 32
        &&& self.policy.seed == 0
        &&& self.valid()
    }
}

impl Default for IcacheFlowConfig {
    fn default() -> (r: Self)
        ensures
            r.is_default(),
    {
        Self {
            hit: ServerConfig {
                base_latency: 0,
                bytes_per_cycle: 1,
                queue_capacity: 16,
                completions_per_cycle: u32::MAX,
                warmup_latency: 0,
            },
            miss: ServerConfig {
                base_latency: 40,
                bytes_per_cycle: 1,
                queue_capacity: 8,
                completions_per_cycle: u32::MAX,
                warmup_latency: 0,
            },
            policy: IcachePolicyConfig::default(),
        }
    }
}

/// The line index of `pc` under `policy`.
pub open spec fn fetch_line(policy: IcachePolicyConfig, pc: u64) -> u64 {
    line_addr_spec(pc, policy.line_bytes)
}

/// A fetch at `pc` hits under `policy`.
pub open spec fn fetch_hits(policy: IcachePolicyConfig, pc: u64) -> bool {
    rule_applies(policy.hit, fetch_line(policy, pc) ^ policy.seed)
}

/// `request` with its line and outcome filled in under `policy`.
pub open spec fn classified(policy: IcachePolicyConfig, request: IcacheRequest) -> IcacheRequest {
    IcacheRequest {
        line_addr: fetch_line(policy, request.pc),
        miss: !fetch_hits(policy, request.pc),
        ..request
    }
}

/// Retry cycle after the path `s` refused a fetch at `now` for being full:
/// the ready cycle of its oldest fetch in flight (else the cycle it can next
/// start one), but at least `now + 1`.
pub open spec fn full_retry_at(s: TimedServer<IcacheRequest>, now: Cycle) -> Cycle {
    max_spec(
        if s.pending().len() > 0 {
            s.pending()[0].ticket.ready()
        } else {
            max_spec(s.next_issue(), s.warmup())
        },
        sat_add(now as int, 1),
    )
}

/// What the path `s` answers to `request` at `now`, taking it to `post`:
/// refused when full or warming up (the request handed back with a retry
/// cycle), otherwise accepted as a zero-byte service request.
pub open spec fn path_outcome(
    s: TimedServer<IcacheRequest>,
    post: TimedServer<IcacheRequest>,
    now: Cycle,
    request: IcacheRequest,
    r: Result<IcacheIssue, IcacheReject>,
) -> bool {
    if s.is_full() {
        &&& r == Err::<IcacheIssue, IcacheReject>(
            IcacheReject {
                request,
                retry_at: full_retry_at(s, now),
                reason: IcacheRejectReason::QueueFull,
            },
        )
        &&& s.refused_full(&post)
    } else if s.is_warming(now) {
        &&& r == Err::<IcacheIssue, IcacheReject>(
            IcacheReject {
                request,
                retry_at: max_spec(s.warmup(), sat_add(now as int, 1)),
                reason: IcacheRejectReason::Busy,
            },
        )
        &&& s.refused_busy(&post)
    } else {
        &&& r matches Ok(issue)
        &&& s.accepted(&post, now, request, 0, issue.ticket)
    }
}

/// The counters after the outcome `r` of a fetch of `bytes` bytes that hits
/// when `hit` holds.
pub open spec fn counted_issue(
    st: IcacheStats,
    r: Result<IcacheIssue, IcacheReject>,
    bytes: u32,
    hit: bool,
) -> IcacheStats {
    match r {
        Ok(_) => IcacheStats {
            issued: sat_add(st.issued as int, 1),
            bytes_issued: sat_add(st.bytes_issued as int, bytes as int),
            hits: if hit {
                sat_add(st.hits as int, 1)
            } else {
                st.hits
            },
            misses: if hit {
                st.misses
            } else {
                sat_add(st.misses as int, 1)
            },
            ..st
        },
        Err(e) => if e.reason == IcacheRejectReason::QueueFull {
            IcacheStats { queue_full_rejects: sat_add(st.queue_full_rejects as int, 1), ..st }
        } else {
            IcacheStats { busy_rejects: sat_add(st.busy_rejects as int, 1), ..st }
        },
    }
}

/// Bytes of the fetches in `s` (as they were requested).
pub open spec fn fetched_bytes(s: Seq<ServiceResult<IcacheRequest>>) -> int
    decreases s.len(),
{
    if s.len() == 0 {
        0
    } else {
        fetched_bytes(s.drop_last()) + s.last().payload.bytes as int
    }
}

pub proof fn lemma_fetched_bytes_concat(
    a: Seq<ServiceResult<IcacheRequest>>,
    b: Seq<ServiceResult<IcacheRequest>>,
)
    ensures
        fetched_bytes(a + b) == fetched_bytes(a) + fetched_bytes(b),
        fetched_bytes(a) >= 0,
    decreases b.len(),
{
    if b.len() == 0 {
        assert(a + b =~= a);
        lemma_fetched_bytes_nonneg(a);
    } else {
        lemma_fetched_bytes_concat(a, b.drop_last());
        assert((a + b).drop_last() =~= a + b.drop_last());
    }
}

proof fn lemma_fetched_bytes_nonneg(s: Seq<ServiceResult<IcacheRequest>>)
    ensures
        fetched_bytes(s) >= 0,
    decreases s.len(),
{
    if s.len() > 0 {
        lemma_fetched_bytes_nonneg(s.drop_last());
    }
}

/// The counters after the fetches in `done` complete at `now`.
pub open spec fn stats_after_completions(
    st: IcacheStats,
    done: Seq<ServiceResult<IcacheRequest>>,
    now: Cycle,
) -> IcacheStats {
    IcacheStats {
        completed: sat_add(st.completed as int, done.len() as int),
        bytes_completed: sat_add(st.bytes_completed as int, fetched_bytes(done)),
        last_completion_cycle: if done.len() > 0 {
            Some(now)
        } else {
            st.last_completion_cycle
        },
        ..st
    }
}

pub struct IcacheSubgraph {
    hit: TimedServer<IcacheRequest>,
    miss: TimedServer<IcacheRequest>,
    policy: IcachePolicyConfig,
    stats: IcacheStats,
}

impl IcacheSubgraph {
    pub closed spec fn hit_path(&self) -> TimedServer<IcacheRequest> {
        self.hit
    }

    pub closed spec fn miss_path(&self) -> TimedServer<IcacheRequest> {
        self.miss
    }

    pub closed spec fn policy_spec(&self) -> IcachePolicyConfig {
        self.policy
    }

    pub closed spec fn stats_spec(&self) -> IcacheStats {
        self.stats
    }

    pub open spec fn wf(&self) -> bool {
        self.hit_path().wf() && self.miss_path().wf()
    }

    pub fn new(config: IcacheFlowConfig) -> (r: Self)
        requires
            config.valid(),
        ensures
            r.wf(),
            r.hit_path().cfg() == config.hit,
            r.miss_path().cfg() == config.miss,
            r.hit_path().pending().len() == 0,
            r.miss_path().pending().len() == 0,
            r.hit_path().done().len() == 0,
            r.miss_path().done().len() == 0,
            r.hit_path().next_issue() == 0,
            r.miss_path().next_issue() == 0,
            r.hit_path().warmup() == config.hit.warmup_latency,
            r.miss_path().warmup() == config.miss.warmup_latency,
            r.policy_spec() == config.policy,
            r.stats_spec() == IcacheStats::zeroed(),
    {
        Self {
            hit: TimedServer::new(config.hit),
            miss: TimedServer::new(config.miss),
            policy: config.policy,
            stats: IcacheStats::default(),
        }
    }

    /// Fill in the line and the outcome of `request`, then offer it to the
    /// hit or the miss path at `now`; the counters record the outcome.
    pub fn issue(&mut self, now: Cycle, request: IcacheRequest) -> (r: Result<
        IcacheIssue,
        IcacheReject,
    >)
        requires
            old(self).wf(),
        ensures
            final(self).wf(),
            final(self).policy_spec() == old(self).policy_spec(),
            ({
                let req = classified(old(self).policy_spec(), request);
                if !req.miss {
                    &&& path_outcome(old(self).hit_path(), final(self).hit_path(), now, req, r)
                    &&& final(self).miss_path() == old(self).miss_path()
                } else {
                    &&& path_outcome(old(self).miss_path(), final(self).miss_path(), now, req, r)
                    &&& final(self).hit_path() == old(self).hit_path()
                }
            }),
            final(self).stats_spec() == counted_issue(
                old(self).stats_spec(),
                r,
                request.bytes,
                fetch_hits(old(self).policy_spec(), request.pc),
            ),
    {
        let mut request = request;
        let line_bytes: u32 = if self.policy.line_bytes >= 1 {
            self.policy.line_bytes
        } else {
            1
        };
        request.line_addr = line_addr(request.pc, line_bytes);
        let hit = hash_rule_holds(self.policy.hit, request.line_addr ^ self.policy.seed);
        request.miss = !hit;
        let bytes = request.bytes;
        let res = if hit {
            offer(&mut self.hit, now, request)
        } else {
            offer(&mut self.miss, now, request)
        };
        match &res {
            Ok(_) => {
                self.stats.issued = self.stats.issued.saturating_add(1);
                self.stats.bytes_issued = self.stats.bytes_issued.saturating_add(bytes as u64);
                if hit {
                    self.stats.hits = self.stats.hits.saturating_add(1);
                } else {
                    self.stats.misses = self.stats.misses.saturating_add(1);
                }
            },
            Err(e) => {
                if e.reason == IcacheRejectReason::QueueFull {
                    self.stats.queue_full_rejects = self.stats.queue_full_rejects.saturating_add(1);
                } else {
                    self.stats.busy_rejects = self.stats.busy_rejects.saturating_add(1);
                }
            },
        }
        res
    }

    /// Retire the fetches that complete at `now` on the hit path, then on
    /// the miss path, counting them, their bytes and the cycle.
    pub fn tick(&mut self, now: Cycle)
        requires
            old(self).wf(),
        ensures
            final(self).wf(),
            old(self).hit_path().serviced(&final(self).hit_path(), now),
            old(self).miss_path().serviced(&final(self).miss_path(), now),
            final(self).policy_spec() == old(self).policy_spec(),
            final(self).stats_spec() == stats_after_completions(
                old(self).stats_spec(),
                old(self).hit_path().serviced_out(now) + old(self).miss_path().serviced_out(now),
                now,
            ),
    {
        let hits = self.hit.service_ready(now);
        record_completions(&mut self.stats, &hits, now);
        let misses = self.miss.service_ready(now);
        record_completions(&mut self.stats, &misses, now);
        proof {
            lemma_fetched_bytes_concat(hits@, misses@);
            lemma_fetched_bytes_nonneg(misses@);
        }
    }

    pub fn stats(&self) -> (r: IcacheStats)
        ensures
            r == self.stats_spec(),
    {
        self.stats
    }

    /// Reset the counters; the paths keep their fetches.
    pub fn clear_stats(&mut self)
        requires
            old(self).wf(),
        ensures
            final(self).wf(),
            final(self).hit_path() == old(self).hit_path(),
            final(self).miss_path() == old(self).miss_path(),
            final(self).policy_spec() == old(self).policy_spec(),
            final(self).stats_spec() == IcacheStats::zeroed(),
    {
        self.stats = IcacheStats::default();
    }
}

/// Offer `request` to one path as a zero-byte service request.
fn offer(server: &mut TimedServer<IcacheRequest>, now: Cycle, request: IcacheRequest) -> (r: Result<
    IcacheIssue,
    IcacheReject,
>)
    requires
        old(server).wf(),
    ensures
        final(server).wf(),
        path_outcome(*old(server), *final(server), now, request, r),
{
    match server.try_enqueue(now, ServiceRequest::new(request, 0)) {
        Ok(ticket) => Ok(IcacheIssue { ticket }),
        Err(bp) => match bp {
            Backpressure::Busy { request, available_at } => Err(
                IcacheReject {
                    request: request.payload,
                    retry_at: max_u64(available_at, now.saturating_add(1)),
                    reason: IcacheRejectReason::Busy,
                },
            ),
            Backpressure::QueueFull { request, .. } => {
                let oldest = match server.oldest_ticket() {
                    Some(t) => t.ready_at(),
                    None => server.available_at(),
                };
                Err(
                    IcacheReject {
                        request: request.payload,
                        retry_at: max_u64(oldest, now.saturating_add(1)),
                        reason: IcacheRejectReason::QueueFull,
                    },
                )
            },
        },
    }
}

/// Count the fetches in `done` as completed at `now`.
fn record_completions(stats: &mut IcacheStats, done: &Vec<ServiceResult<IcacheRequest>>, now: Cycle)
    ensures
        *final(stats) == stats_after_completions(*old(stats), done@, now),
{
    let ghost st0 = *stats;
    let mut i: usize = 0;
    while i < done.len()
        invariant
            0 <= i <= done@.len(),
            *stats == stats_after_completions(st0, done@.take(i as int), now),
        decreases done@.len() - i,
    {
        proof {
            assert(done@.take(i + 1).drop_last() =~= done@.take(i as int));
            lemma_fetched_bytes_nonneg(done@.take(i as int));
        }
        stats.completed = stats.completed.saturating_add(1);
        stats.bytes_completed = stats.bytes_completed.saturating_add(done[i].payload.bytes as u64);
        stats.last_completion_cycle = Some(now);
        i = i + 1;
    }
    proof {
        assert(done@.take(done@.len() as int) =~= done@);
    }
}

} // verus!
