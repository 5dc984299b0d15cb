//! Timed servers: bounded FIFOs that model a fixed latency plus a
//! byte-per-cycle bandwidth budget, with an optional warm-up period and a
//! cap on how many completions become visible per cycle.

use std::collections::VecDeque;
use vstd::prelude::*;

verus! {

pub type Cycle = u64;

/// `a + b` clamped to the range of `u64`.
pub open spec fn sat_add(a: int, b: int) -> u64 {
    if a + b > u64::MAX {
        u64::MAX
    } else if a + b < 0 {
        0
    } else {
        (a + b) as u64
    }
}

/// `a + b` clamped to the range of `u32`.
pub open spec fn sat_add32(a: int, b: int) -> u32 {
    if a + b > u32::MAX {
        u32::MAX
    } else if a + b < 0 {
        0
    } else {
        (a + b) as u32
    }
}

/// `a - b` clamped at zero.
pub open spec fn sat_sub(a: int, b: int) -> u64 {
    if a - b < 0 {
        0
    } else if a - b > u64::MAX {
        u64::MAX
    } else {
        (a - b) as u64
    }
}

pub open spec fn max_spec(a: u64, b: u64) -> u64 {
    if a >= b {
        a
    } else {
        b
    }
}

/// `a * b`, saturating at `usize::MAX`.
pub fn sat_mul_usize(a: usize, b: usize) -> (r: usize)
    ensures
        a * b <= usize::MAX ==> r == a * b,
        a * b > usize::MAX ==> r == usize::MAX,
{
    match a.checked_mul(b) {
        Some(x) => x,
        None => usize::MAX,
    }
}

/// Larger of two cycles.
pub fn max_u64(a: u64, b: u64) -> (r: u64)
    ensures
        r == max_spec(a, b),
{
    if a >= b {
        a
    } else {
        b
    }
}

/// Number of cycles needed to move `bytes` at `per_cycle` bytes per cycle.
pub open spec fn ceil_div(bytes: int, per_cycle: int) -> int {
    (bytes + per_cycle - 1) / per_cycle
}

pub open spec fn normalize_retry_spec(now: Cycle, suggested: Cycle) -> Cycle {
    max_spec(suggested, sat_add(now as int, 1))
}

/// Normalize a suggested retry cycle so that it lies strictly in the future
/// (at least `now + 1`, saturating at the end of time).
pub fn normalize_retry(now: Cycle, suggested: Cycle) -> (r: Cycle)
    ensures
        r == normalize_retry_spec(now, suggested),
        r >= suggested,
        now < u64::MAX ==> r > now,
{
    max_u64(suggested, now.saturating_add(1))
}

fn ceil_div_u64(nom: u64, denom: u64) -> (r: Cycle)
    requires
        denom > 0,
        nom <= u32::MAX,
        denom <= u32::MAX,
    ensures
        r == ceil_div(nom as int, denom as int),
{
    (nom + denom - 1) / denom
}

/// Result of queueing a request with a timed server.
#[derive(Debug, Clone, Copy)]
pub struct Ticket {
    issued_at: Cycle,
    ready_at: Cycle,
    size_bytes: u32,
}

impl Ticket {
    pub closed spec fn issued(self) -> Cycle {
        self.issued_at
    }

    pub closed spec fn ready(self) -> Cycle {
        self.ready_at
    }

    pub closed spec fn size(self) -> u32 {
        self.size_bytes
    }

    /// A ticket issued at `issued_at` that becomes ready at `ready_at`.
    pub fn new(issued_at: Cycle, ready_at: Cycle, size_bytes: u32) -> (t: Self)
        ensures
            t.issued() == issued_at,
            t.ready() == ready_at,
            t.size() == size_bytes,
    {
        Self { issued_at, ready_at, size_bytes }
    }

    /// Cycle at which the request was issued.
    pub fn issued_at(&self) -> (r: Cycle)
        ensures
            r == self.issued(),
    {
        self.issued_at
    }

    /// Cycle at which the payload becomes available downstream.
    pub fn ready_at(&self) -> (r: Cycle)
        ensures
            r == self.ready(),
    {
        self.ready_at
    }

    /// Size of the request in bytes.
    pub fn size_bytes(&self) -> (r: u32)
        ensures
            r == self.size(),
    {
        self.size_bytes
    }

    /// Whether the ticket is ready at `now`.
    pub fn is_ready(&self, now: Cycle) -> (r: bool)
        ensures
            r == (now >= self.ready()),
    {
        now >= self.ready_at
    }

    /// Cycles until the ticket is ready, zero once it is.
    pub fn remaining_cycles(&self, now: Cycle) -> (r: Cycle)
        ensures
            r == sat_sub(self.ready() as int, now as int),
    {
        self.ready_at.saturating_sub(now)
    }
}

/// A payload together with the size that drives its service time.
#[derive(Debug)]
pub struct ServiceRequest<T> {
    pub payload: T,
    pub size_bytes: u32,
}

impl<T> ServiceRequest<T> {
    pub fn new(payload: T, size_bytes: u32) -> (r: Self)
        ensures
            r.payload == payload,
            r.size_bytes == size_bytes,
    {
        Self { payload, size_bytes }
    }
}

/// A completed request.
#[derive(Debug)]
pub struct ServiceResult<T> {
    pub payload: T,
    pub ticket: Ticket,
}

/// Why a server refused a request; the request is handed back.
#[derive(Debug)]
pub enum Backpressure<T> {
    /// The bounded FIFO is full.
    QueueFull { request: ServiceRequest<T>, capacity: usize },
    /// The server is still warming up.
    Busy { request: ServiceRequest<T>, available_at: Cycle },
}

impl<T> Backpressure<T> {
    pub open spec fn request_spec(self) -> ServiceRequest<T> {
        match self {
            Backpressure::QueueFull { request, .. } => request,
            Backpressure::Busy { request, .. } => request,
        }
    }

    /// Recover the refused request so that it can be retried.
    pub fn into_request(self) -> (r: ServiceRequest<T>)
        ensures
            r == self.request_spec(),
    {
        match self {
            Backpressure::QueueFull { request, .. } => request,
            Backpressure::Busy { request, .. } => request,
        }
    }
}

/// Whether a server would take a request at a given cycle.
#[derive(Debug, Clone, Copy, PartialEq, Eq, Structural)]
pub enum AcceptStatus {
    Ready,
    Busy { available_at: Cycle },
    QueueFull { capacity: usize },
}

#[derive(Debug, Clone, Copy)]
pub struct ServerConfig {
    /// Fixed latency added to every request.
    pub base_latency: Cycle,
    /// Throughput in bytes per cycle.
    pub bytes_per_cycle: u32,
    /// Maximum number of outstanding requests.
    pub queue_capacity: usize,
    /// Maximum number of completions exposed per cycle.
    pub completions_per_cycle: u32,
    /// Warm-up latency before the first request can issue.
    pub warmup_latency: Cycle,
}

impl ServerConfig {
    /// The conditions under which a server can be built from this config.
    pub open spec fn valid(self) -> bool {
        &&& self.bytes_per_cycle > 0
        &&& self.queue_capacity > 0
        &&& self.completions_per_cycle > 0
    }
}

impl Default for ServerConfig {
    fn default() -> (r: Self)
        ensures
            r.base_latency == 0,
            r.bytes_per_cycle == 1,
            r.queue_capacity == 1,
            r.completions_per_cycle == u32::MAX,
            r.warmup_latency == 0,
    {
        Self {
            base_latency: 0,
            bytes_per_cycle: 1,
            queue_capacity: 1,
            completions_per_cycle: u32::MAX,
            warmup_latency: 0,
        }
    }
}

#[derive(Debug, Clone, Copy)]
pub struct ServerStats {
    pub issued: u64,
    pub completed: u64,
    pub queue_full_rejects: u64,
    pub busy_rejects: u64,
    pub bytes_issued: u64,
    pub bytes_completed: u64,
    pub max_outstanding: u64,
}

impl ServerStats {
    pub open spec fn is_zero(self) -> bool {
        &&& self.issued == 0
        &&& self.completed == 0
        &&& self.queue_full_rejects == 0
        &&& self.busy_rejects == 0
        &&& self.bytes_issued == 0
        &&& self.bytes_completed == 0
        &&& self.max_outstanding == 0
    }
}

impl Default for ServerStats {
    fn default() -> (r: Self)
        ensures
            r.is_zero(),
    {
        Self {
            issued: 0,
            completed: 0,
            queue_full_rejects: 0,
            busy_rejects: 0,
            bytes_issued: 0,
            bytes_completed: 0,
            max_outstanding: 0,
        }
    }
}

/// Sum of the ticket sizes of a sequence of results.
pub open spec fn bytes_of<T>(s: Seq<ServiceResult<T>>) -> int
    decreases s.len(),
{
    if s.len() == 0 {
        0
    } else {
        bytes_of(s.drop_last()) + s.last().ticket.size() as int
    }
}

pub proof fn lemma_bytes_nonneg<T>(s: Seq<ServiceResult<T>>)
    ensures
        bytes_of(s) >= 0,
    decreases s.len(),
{
    if s.len() > 0 {
        lemma_bytes_nonneg(s.drop_last());
    }
}

/// How many leading entries of `s` are ready at `now`, up to `budget`.
pub open spec fn releasable<T>(s: Seq<ServiceResult<T>>, now: Cycle, budget: int) -> nat
    decreases s.len(),
{
    if s.len() == 0 || budget <= 0 || s[0].ticket.ready() > now {
        0
    } else {
        1 + releasable(s.drop_first(), now, budget - 1)
    }
}

/// Single-lane server that enforces a latency/bandwidth budget and keeps
/// track of outstanding work, in issue order.
pub struct TimedServer<T> {
    config: ServerConfig,
    inflight: VecDeque<ServiceResult<T>>,
    ready: VecDeque<ServiceResult<T>>,
    next_issue_at: Cycle,
    warmup_until: Cycle,
    last_completion_cycle: Cycle,
    completions_this_cycle: u32,
    stats: ServerStats,
    admitted: Ghost<nat>,
    handed_out: Ghost<nat>,
    seen: Ghost<Cycle>,
}

impl<T> TimedServer<T> {
    /// Requests accepted since the server was built.
    pub closed spec fn admitted_count(&self) -> nat {
        self.admitted@
    }

    /// Completions handed out since the server was built.
    pub closed spec fn handed_count(&self) -> nat {
        self.handed_out@
    }

    /// The latest cycle the server was advanced to so far.
    pub closed spec fn seen_cycle(&self) -> Cycle {
        self.seen@
    }

    /// The configuration the server was built with.
    pub closed spec fn cfg(&self) -> ServerConfig {
        self.config
    }

    /// Requests accepted and not yet visible as completions, oldest first.
    pub closed spec fn pending(&self) -> Seq<ServiceResult<T>> {
        self.inflight@
    }

    /// Completions visible to consumers and not yet taken, oldest first.
    pub closed spec fn done(&self) -> Seq<ServiceResult<T>> {
        self.ready@
    }

    /// Earliest cycle at which the bandwidth budget lets a new request start.
    pub closed spec fn next_issue(&self) -> Cycle {
        self.next_issue_at
    }

    /// End of the warm-up period.
    pub closed spec fn warmup(&self) -> Cycle {
        self.warmup_until
    }

    pub closed spec fn last_cycle(&self) -> Cycle {
        self.last_completion_cycle
    }

    pub closed spec fn cycle_count(&self) -> u32 {
        self.completions_this_cycle
    }

    pub closed spec fn stat(&self) -> ServerStats {
        self.stats
    }

    pub closed spec fn wf(&self) -> bool {
        &&& self.config.valid()
        &&& self.inflight@.len() + self.ready@.len() <= self.config.queue_capacity
        &&& self.inflight@.len() + self.ready@.len() + self.handed_out@ == self.admitted@
        &&& forall|j: int| 0 <= j < self.ready@.len() ==> (#[trigger] self.ready@[j]).ticket.ready() <= self.seen@
    }

    /// At a `now` no earlier than any cycle the server was advanced to,
    /// every completion visible at `now` is ready by `now`.
    pub proof fn lemma_visible_ready_by_now(&self, now: Cycle)
        requires
            self.wf(),
            self.seen_cycle() <= now,
        ensures
            forall|j: int|
                0 <= j < (self.done() + self.pending().take(self.moved_at(now) as int)).len() ==> (#[trigger] (self.done()
                    + self.pending().take(self.moved_at(now) as int))[j]).ticket.ready() <= now,
    {
        Self::lemma_releasable_facts(self.pending(), now, self.budget_at(now));
        let vis = self.done() + self.pending().take(self.moved_at(now) as int);
        assert forall|j: int| 0 <= j < vis.len() implies (#[trigger] vis[j]).ticket.ready() <= now by {
            if j < self.done().len() {
                assert(vis[j] == self.done()[j]);
            } else {
                assert(vis[j] == self.pending()[j - self.done().len()]);
            }
        }
    }

    /// Called with cycles that never go back, the server hands out only
    /// completions whose ticket is ready: at `now`, no earlier than any
    /// cycle it was advanced to, its next completion is ready by `now`.
    pub proof fn lemma_ready_by_now(&self, now: Cycle)
        requires
            self.wf(),
            self.seen_cycle() <= now,
        ensures
            self.ready_head(now) matches Some(x) ==> x.ticket.ready() <= now,
    {
        Self::lemma_releasable_facts(self.pending(), now, self.budget_at(now));
        let vis = self.done() + self.pending().take(self.moved_at(now) as int);
        if vis.len() > 0 {
            if self.done().len() > 0 {
                assert(vis[0] == self.done()[0]);
            } else {
                assert(vis[0] == self.pending()[0]);
            }
        }
    }

    /// Whatever calls brought a server to where it is, the requests it
    /// holds are those it accepted less those it handed out, and never more
    /// than its capacity.
    pub proof fn lemma_outstanding_counts(&self)
        requires
            self.wf(),
        ensures
            self.outstanding_spec() == self.admitted_count() - self.handed_count(),
            self.outstanding_spec() <= self.cfg().queue_capacity,
    {
    }

    /// A server just built from `config`: nothing queued or exposed, no
    /// completion counted in any cycle, free from cycle 0 and warming up
    /// until the configured latency, counters zero.
    pub open spec fn fresh(&self, config: ServerConfig) -> bool {
        &&& self.wf()
        &&& self.cfg() == config
        &&& self.pending().len() == 0
        &&& self.done().len() == 0
        &&& self.next_issue() == 0
        &&& self.warmup() == config.warmup_latency
        &&& self.last_cycle() == 0
        &&& self.cycle_count() == 0
        &&& self.stat().is_zero()
    }

    /// Number of outstanding requests (in flight or waiting to be drained).
    pub open spec fn outstanding_spec(&self) -> int {
        (self.pending().len() + self.done().len()) as int
    }

    /// Completions already exposed during cycle `now`.
    pub open spec fn used_at(&self, now: Cycle) -> int {
        if self.last_cycle() == now {
            self.cycle_count() as int
        } else {
            0
        }
    }

    /// Completions that may still be exposed during cycle `now`.
    pub open spec fn budget_at(&self, now: Cycle) -> int {
        self.cfg().completions_per_cycle - self.used_at(now)
    }

    /// Number of pending requests that `advance_ready(now)` makes visible.
    pub open spec fn moved_at(&self, now: Cycle) -> nat {
        releasable(self.pending(), now, self.budget_at(now))
    }

    /// Start cycle of a request accepted at `now`.
    pub open spec fn start_at(&self, now: Cycle) -> Cycle {
        max_spec(self.next_issue(), now)
    }

    /// Ready cycle of a request of `size` bytes accepted at `now`.
    pub open spec fn ready_at_for(&self, now: Cycle, size: u32) -> Cycle {
        sat_add(
            sat_add(self.start_at(now) as int, self.cfg().base_latency as int) as int,
            ceil_div(size as int, self.cfg().bytes_per_cycle as int),
        )
    }

    /// State relation of `advance_ready(now)` from `self` to `post`.
    pub open spec fn advanced(&self, post: &Self, now: Cycle) -> bool {
        let k = self.moved_at(now);
        &&& post.wf()
        &&& post.pending() == self.pending().skip(k as int)
        &&& post.done() == self.done() + self.pending().take(k as int)
        &&& post.cfg() == self.cfg()
        &&& post.next_issue() == self.next_issue()
        &&& post.warmup() == self.warmup()
        &&& post.last_cycle() == now
        &&& post.cycle_count() == self.used_at(now) + k
        &&& post.stat() == (ServerStats {
            completed: sat_add(self.stat().completed as int, k as int),
            bytes_completed: sat_add(
                self.stat().bytes_completed as int,
                bytes_of(self.pending().take(k as int)),
            ),
            ..self.stat()
        })
    }

    /// Next-issue cycle after the server is observed idle at `now`.
    pub open spec fn idle_next_issue(pending_len: nat, done_len: nat, next: Cycle, now: Cycle) -> Cycle {
        if pending_len == 0 && done_len == 0 && now > next {
            now
        } else {
            next
        }
    }

    pub fn new(config: ServerConfig) -> (s: Self)
        requires
            config.valid(),
        ensures
            s.wf(),
            s.cfg() == config,
            s.pending().len() == 0,
            s.done().len() == 0,
            s.next_issue() == 0,
            s.warmup() == config.warmup_latency,
            s.last_cycle() == 0,
            s.cycle_count() == 0,
            s.stat().is_zero(),
            s.fresh(config),
            s.admitted_count() == 0,
            s.handed_count() == 0,
            s.seen_cycle() == 0,
    {
        Self {
            config,
            inflight: VecDeque::with_capacity(config.queue_capacity),
            ready: VecDeque::with_capacity(config.queue_capacity),
            next_issue_at: 0,
            warmup_until: config.warmup_latency,
            last_completion_cycle: 0,
            completions_this_cycle: 0,
            stats: ServerStats::default(),
            admitted: Ghost(0),
            handed_out: Ghost(0),
            seen: Ghost(0),
        }
    }

    /// The queue is at capacity.
    pub open spec fn is_full(&self) -> bool {
        self.outstanding_spec() >= self.cfg().queue_capacity
    }

    /// The queue is empty and still warming up at `now`.
    pub open spec fn is_warming(&self, now: Cycle) -> bool {
        self.outstanding_spec() == 0 && now < self.warmup()
    }

    /// Fields that an enqueue attempt never changes.
    pub open spec fn same_except_issue(&self, post: &Self) -> bool {
        &&& post.wf()
        &&& post.cfg() == self.cfg()
        &&& post.done() == self.done()
        &&& post.warmup() == self.warmup()
        &&& post.last_cycle() == self.last_cycle()
        &&& post.cycle_count() == self.cycle_count()
    }

    /// `post` is `self` after refusing a request because the queue is full.
    pub open spec fn refused_full(&self, post: &Self) -> bool {
        &&& self.same_except_issue(post)
        &&& post.pending() == self.pending()
        &&& post.next_issue() == self.next_issue()
        &&& post.stat() == (ServerStats {
            queue_full_rejects: sat_add(self.stat().queue_full_rejects as int, 1),
            ..self.stat()
        })
    }

    /// `post` is `self` after refusing a request during warm-up.
    pub open spec fn refused_busy(&self, post: &Self) -> bool {
        &&& self.same_except_issue(post)
        &&& post.pending() == self.pending()
        &&& post.next_issue() == self.next_issue()
        &&& post.stat() == (ServerStats {
            busy_rejects: sat_add(self.stat().busy_rejects as int, 1),
            ..self.stat()
        })
    }

    /// `post` is `self` after accepting `payload` of `size` bytes at `now`
    /// under ticket `t`.
    pub open spec fn accepted(&self, post: &Self, now: Cycle, payload: T, size: u32, t: Ticket) -> bool {
        let svc = ceil_div(size as int, self.cfg().bytes_per_cycle as int);
        &&& self.same_except_issue(post)
        &&& t.issued() == now
        &&& t.ready() == self.ready_at_for(now, size)
        &&& t.size() == size
        &&& post.pending() == self.pending().push(ServiceResult { payload, ticket: t })
        &&& post.next_issue() == sat_add(self.start_at(now) as int, svc)
        &&& post.stat() == (ServerStats {
            issued: sat_add(self.stat().issued as int, 1),
            bytes_issued: sat_add(self.stat().bytes_issued as int, size as int),
            max_outstanding: max_spec(
                self.stat().max_outstanding,
                (self.outstanding_spec() + 1) as u64,
            ),
            ..self.stat()
        })
    }

    /// Attempt to enqueue a request at cycle `now`: refused with the request
    /// handed back when the queue is full, or when it is empty and still
    /// warming up; otherwise accepted with a ticket whose ready cycle is the
    /// start cycle plus the base latency plus the bandwidth time.
    pub fn try_enqueue(&mut self, now: Cycle, request: ServiceRequest<T>) -> (r: Result<
        Ticket,
        Backpressure<T>,
    >)
        requires
            old(self).wf(),
        ensures
            final(self).seen_cycle() == old(self).seen_cycle(),
            final(self).admitted_count() == old(self).admitted_count() + if r is Ok {
                1nat
            } else {
                0nat
            },
            final(self).handed_count() == old(self).handed_count(),
            old(self).is_full() ==> r == Err::<Ticket, Backpressure<T>>(
                Backpressure::QueueFull { request, capacity: old(self).cfg().queue_capacity },
            ) && old(self).refused_full(final(self)),
            !old(self).is_full() && old(self).is_warming(now) ==> r == Err::<
                Ticket,
                Backpressure<T>,
            >(Backpressure::Busy { request, available_at: old(self).warmup() }) && old(
                self,
            ).refused_busy(final(self)),
            !old(self).is_full() && !old(self).is_warming(now) ==> (r matches Ok(t) && old(
                self,
            ).accepted(final(self), now, request.payload, request.size_bytes, t)),
    {
        let outstanding = self.outstanding_len();
        if outstanding >= self.config.queue_capacity {
            self.stats.queue_full_rejects = self.stats.queue_full_rejects.saturating_add(1);
            return Err(Backpressure::QueueFull { request, capacity: self.config.queue_capacity });
        }
        if outstanding == 0 && now < self.warmup_until {
            self.stats.busy_rejects = self.stats.busy_rejects.saturating_add(1);
            return Err(Backpressure::Busy { request, available_at: self.warmup_until });
        }
        let start = max_u64(self.next_issue_at, now);
        let service_cycles = ceil_div_u64(
            request.size_bytes as u64,
            self.config.bytes_per_cycle as u64,
        );
        let ready_at = start.saturating_add(self.config.base_latency).saturating_add(
            service_cycles,
        );
        let ticket = Ticket::new(now, ready_at, request.size_bytes);
        self.next_issue_at = start.saturating_add(service_cycles);
        let size = request.size_bytes;
        self.inflight.push_back(ServiceResult { payload: request.payload, ticket });
        self.admitted = Ghost(self.admitted@ + 1);
        self.stats.issued = self.stats.issued.saturating_add(1);
        self.stats.bytes_issued = self.stats.bytes_issued.saturating_add(size as u64);
        let now_outstanding = (outstanding + 1) as u64;
        self.stats.max_outstanding = max_u64(self.stats.max_outstanding, now_outstanding);
        Ok(ticket)
    }

    /// Free entries of the queue.
    pub fn available_slots(&self) -> (r: usize)
        requires
            self.wf(),
        ensures
            r == self.cfg().queue_capacity - self.outstanding_spec(),
    {
        self.config.queue_capacity - self.outstanding_len()
    }

    /// What `try_enqueue(now, ..)` would answer, without changing anything:
    /// full, still warming up, or ready.
    pub fn accept_status(&self, now: Cycle) -> (r: AcceptStatus)
        requires
            self.wf(),
        ensures
            self.is_full() ==> r == (AcceptStatus::QueueFull { capacity: self.cfg().queue_capacity }),
            !self.is_full() && self.is_warming(now) ==> r == (AcceptStatus::Busy {
                available_at: self.warmup(),
            }),
            !self.is_full() && !self.is_warming(now) ==> r == AcceptStatus::Ready,
    {
        let outstanding = self.outstanding_len();
        if outstanding >= self.config.queue_capacity {
            AcceptStatus::QueueFull { capacity: self.config.queue_capacity }
        } else if outstanding == 0 && now < self.warmup_until {
            AcceptStatus::Busy { available_at: self.warmup_until }
        } else {
            AcceptStatus::Ready
        }
    }

    /// Earliest cycle at which a new request can begin service.
    pub fn available_at(&self) -> (r: Cycle)
        ensures
            r == max_spec(self.next_issue(), self.warmup()),
    {
        max_u64(self.next_issue_at, self.warmup_until)
    }

    /// The oldest request still in flight.
    pub fn oldest_ticket(&self) -> (r: Option<&Ticket>)
        ensures
            self.pending().len() == 0 ==> r is None,
            self.pending().len() > 0 ==> r == Some(&self.pending()[0].ticket),
    {
        if self.inflight.len() == 0 {
            None
        } else {
            Some(&self.inflight[0].ticket)
        }
    }

    proof fn lemma_releasable_step(s: Seq<ServiceResult<T>>, now: Cycle, budget: int, m: int)
        requires
            0 <= m < s.len(),
            budget - m > 0,
            s[m].ticket.ready() <= now,
        ensures
            releasable(s.skip(m), now, budget - m) == 1 + releasable(
                s.skip(m + 1),
                now,
                budget - m - 1,
            ),
    {
        assert(s.skip(m).drop_first() =~= s.skip(m + 1));
    }

    proof fn lemma_bytes_of_push(s: Seq<ServiceResult<T>>, x: ServiceResult<T>)
        ensures
            bytes_of(s.push(x)) == bytes_of(s) + x.ticket.size(),
    {
        assert(s.push(x).drop_last() =~= s);
    }

    proof fn lemma_bytes_of_nonneg(s: Seq<ServiceResult<T>>)
        ensures
            bytes_of(s) >= 0,
        decreases s.len(),
    {
        if s.len() > 0 {
            Self::lemma_bytes_of_nonneg(s.drop_last());
        }
    }

    proof fn lemma_releasable_facts(s: Seq<ServiceResult<T>>, now: Cycle, budget: int)
        ensures
            releasable(s, now, budget) <= s.len(),
            budget >= 0 ==> releasable(s, now, budget) <= budget,
            forall|i: int| 0 <= i < releasable(s, now, budget) ==> s[i].ticket.ready() <= now,
            releasable(s, now, budget) < s.len() && releasable(s, now, budget) < budget ==> s[releasable(s, now, budget) as int].ticket.ready() > now,
        decreases s.len(),
    {
        if s.len() > 0 && budget > 0 && s[0].ticket.ready() <= now {
            Self::lemma_releasable_facts(s.drop_first(), now, budget - 1);
            assert forall|i: int| 0 <= i < releasable(s, now, budget) implies s[i].ticket.ready() <= now by {
                if i > 0 {
                    assert(s[i] == s.drop_first()[i - 1]);
                }
            }
        }
    }

    /// Completions become visible only once their ticket is ready: every
    /// request that `advance_ready(now)` moves has a ready cycle at or
    /// before `now`, and no more than the per-cycle budget is moved.
    pub proof fn lemma_visible_only_when_ready(&self, now: Cycle)
        requires
            self.wf(),
        ensures
            forall|i: int| 0 <= i < self.moved_at(now) ==> self.pending()[i].ticket.ready() <= now,
            self.moved_at(now) <= self.pending().len(),
            self.budget_at(now) >= 0 ==> self.moved_at(now) <= self.budget_at(now),
    {
        Self::lemma_releasable_facts(self.pending(), now, self.budget_at(now));
    }

    /// Once the completions ready at `now` have been moved out of the
    /// pending queue (within budget), none is left to move in that cycle.
    pub proof fn lemma_drained_cycle(pre: &Self, post: &Self, now: Cycle)
        requires
            pre.wf(),
            post.pending() == pre.pending().skip(pre.moved_at(now) as int),
            post.cfg() == pre.cfg(),
            post.last_cycle() == now,
            post.cycle_count() == pre.used_at(now) + pre.moved_at(now),
        ensures
            post.moved_at(now) == 0,
    {
        let k = pre.moved_at(now);
        let b = pre.budget_at(now);
        Self::lemma_releasable_facts(pre.pending(), now, b);
        if k < pre.pending().len() && k < b {
            assert(post.pending()[0] == pre.pending()[k as int]);
        }
    }

    /// Draining is idempotent within a cycle: once `advance_ready(now)` has
    /// run, running it again in the same cycle moves nothing.
    pub proof fn lemma_same_cycle_moves_once(pre: &Self, post: &Self, now: Cycle)
        requires
            pre.wf(),
            pre.advanced(post, now),
        ensures
            post.moved_at(now) == 0,
    {
        Self::lemma_drained_cycle(pre, post, now);
    }

    /// The completion the server hands out next at `now`: the oldest of
    /// those visible then.
    pub open spec fn ready_head(&self, now: Cycle) -> Option<ServiceResult<T>> {
        let vis = self.done() + self.pending().take(self.moved_at(now) as int);
        if vis.len() > 0 {
            Some(vis[0])
        } else {
            None
        }
    }

    /// Peeking at `now` takes nothing: the server it leaves hands out at
    /// `now` what it would have handed out, with as many requests
    /// outstanding.
    pub proof fn lemma_peek_keeps_head(pre: &Self, post: &Self, now: Cycle)
        requires
            pre.wf(),
            pre.advanced(post, now),
        ensures
            post.ready_head(now) == pre.ready_head(now),
            post.outstanding_spec() == pre.outstanding_spec(),
    {
        Self::lemma_same_cycle_moves_once(pre, post, now);
        let k = pre.moved_at(now) as int;
        Self::lemma_releasable_facts(pre.pending(), now, pre.budget_at(now));
        assert(post.pending().take(0) =~= Seq::<ServiceResult<T>>::empty());
        assert(post.done() + post.pending().take(0) =~= post.done());
    }

    /// Make newly ready completions visible without consuming them.
    pub fn advance_ready(&mut self, now: Cycle)
        requires
            old(self).wf(),
        ensures
            final(self).seen_cycle() == max_spec(old(self).seen_cycle(), now),
            final(self).admitted_count() == old(self).admitted_count(),
            final(self).handed_count() == old(self).handed_count(),
            old(self).advanced(final(self), now),
    {
        let ghost s0 = self.inflight@;
        let ghost r0 = self.ready@;
        let ghost st0 = self.stats;
        let ghost budget = old(self).budget_at(now);
        let ghost total = old(self).moved_at(now);
        if self.last_completion_cycle != now {
            self.last_completion_cycle = now;
            self.completions_this_cycle = 0;
        }
        self.seen = Ghost(max_spec(self.seen@, now));
        proof {
            Self::lemma_releasable_facts(s0, now, budget);
        }
        let ghost used = self.completions_this_cycle as int;
        let cap = self.config.completions_per_cycle;
        let ghost mut m: int = 0;
        assert(s0.skip(0) =~= s0);
        assert(s0.take(0) =~= Seq::<ServiceResult<T>>::empty());
        assert(r0 + s0.take(0) =~= r0);
        while self.inflight.len() > 0
            invariant
                0 <= m <= s0.len(),
                self.inflight@ == s0.skip(m),
                self.ready@ == r0 + s0.take(m),
                self.config == old(self).config,
                self.config.valid(),
                s0.len() + r0.len() <= self.config.queue_capacity,
                self.next_issue_at == old(self).next_issue_at,
                self.warmup_until == old(self).warmup_until,
                self.admitted == old(self).admitted,
                self.handed_out == old(self).handed_out,
                self.seen@ == max_spec(old(self).seen@, now),
                forall|i: int| 0 <= i < total ==> (#[trigger] s0[i]).ticket.ready() <= now,
                forall|j: int| 0 <= j < r0.len() ==> (#[trigger] r0[j]).ticket.ready() <= old(self).seen@,
                self.last_completion_cycle == now,
                budget == cap - used,
                self.completions_this_cycle == used + m,
                used + m <= cap || m == 0,
                total == m + releasable(s0.skip(m), now, budget - m),
                self.stats == (ServerStats {
                    completed: sat_add(st0.completed as int, m),
                    bytes_completed: sat_add(st0.bytes_completed as int, bytes_of(s0.take(m))),
                    ..st0
                }),
            ensures
                self.inflight@ == s0.skip(m),
                self.ready@ == r0 + s0.take(m),
                self.config == old(self).config,
                self.config.valid(),
                s0.len() + r0.len() <= self.config.queue_capacity,
                self.next_issue_at == old(self).next_issue_at,
                self.warmup_until == old(self).warmup_until,
                self.admitted == old(self).admitted,
                self.handed_out == old(self).handed_out,
                self.seen@ == max_spec(old(self).seen@, now),
                forall|i: int| 0 <= i < total ==> (#[trigger] s0[i]).ticket.ready() <= now,
                forall|j: int| 0 <= j < r0.len() ==> (#[trigger] r0[j]).ticket.ready() <= old(self).seen@,
                self.last_completion_cycle == now,
                self.completions_this_cycle == used + m,
                total == m,
                0 <= m <= s0.len(),
                self.stats == (ServerStats {
                    completed: sat_add(st0.completed as int, m),
                    bytes_completed: sat_add(st0.bytes_completed as int, bytes_of(s0.take(m))),
                    ..st0
                }),
            decreases self.inflight@.len(),
        {
            if !self.inflight[0].ticket.is_ready(now) {
                assert(s0.skip(m)[0] == s0[m]);
                break;
            }
            if self.completions_this_cycle >= cap {
                break;
            }
            proof {
                assert(s0.skip(m)[0] == s0[m]);
                Self::lemma_releasable_step(s0, now, budget, m);
                assert(s0.take(m + 1) =~= s0.take(m).push(s0[m]));
                Self::lemma_bytes_of_push(s0.take(m), s0[m]);
                Self::lemma_bytes_of_nonneg(s0.take(m));
            }
            let item = self.inflight.pop_front().unwrap();
            let size = item.ticket.size_bytes();
            assert(size == s0[m].ticket.size());
            self.ready.push_back(item);
            self.completions_this_cycle = self.completions_this_cycle + 1;
            self.stats.completed = self.stats.completed.saturating_add(1);
            self.stats.bytes_completed = self.stats.bytes_completed.saturating_add(size as u64);
            proof {
                assert(self.stats.completed == sat_add(st0.completed as int, m + 1));
                assert(bytes_of(s0.take(m + 1)) == bytes_of(s0.take(m)) + size);
                assert(self.stats.bytes_completed == sat_add(
                    st0.bytes_completed as int,
                    bytes_of(s0.take(m + 1)),
                ));
                m = m + 1;
                assert(self.inflight@ =~= s0.skip(m));
                assert(self.ready@ =~= r0 + s0.take(m));
            }
        }
    }

    fn update_idle(&mut self, now: Cycle)
        ensures
            final(self).seen_cycle() == old(self).seen_cycle(),
            final(self).admitted_count() == old(self).admitted_count(),
            final(self).handed_count() == old(self).handed_count(),
            final(self).pending() == old(self).pending(),
            final(self).done() == old(self).done(),
            final(self).next_issue() == Self::idle_next_issue(
                old(self).pending().len(),
                old(self).done().len(),
                old(self).next_issue(),
                now,
            ),
            final(self).cfg() == old(self).cfg(),
            final(self).pending() == old(self).pending(),
            final(self).done() == old(self).done(),
            final(self).warmup() == old(self).warmup(),
            final(self).last_cycle() == old(self).last_cycle(),
            final(self).cycle_count() == old(self).cycle_count(),
            final(self).stat() == old(self).stat(),
            old(self).wf() ==> final(self).wf(),
    {
        if self.inflight.len() == 0 && self.ready.len() == 0 && now > self.next_issue_at {
            self.next_issue_at = now;
        }
    }

    /// Completions that `service_ready(now)` hands out, oldest first.
    pub open spec fn serviced_out(&self, now: Cycle) -> Seq<ServiceResult<T>> {
        self.done() + self.pending().take(self.moved_at(now) as int)
    }

    /// State relation of `service_ready(now)` from `self` to `post`.
    pub open spec fn serviced(&self, post: &Self, now: Cycle) -> bool {
        let k = self.moved_at(now) as int;
        &&& post.wf()
        &&& post.pending() == self.pending().skip(k)
        &&& post.done().len() == 0
        &&& post.cfg() == self.cfg()
        &&& post.warmup() == self.warmup()
        &&& post.last_cycle() == now
        &&& post.cycle_count() == self.used_at(now) + k
        &&& post.next_issue() == Self::idle_next_issue(
            post.pending().len(),
            0,
            self.next_issue(),
            now,
        )
        &&& post.stat() == (ServerStats {
            completed: sat_add(self.stat().completed as int, k),
            bytes_completed: sat_add(
                self.stat().bytes_completed as int,
                bytes_of(self.pending().take(k)),
            ),
            ..self.stat()
        })
    }

    /// Servicing twice in one cycle hands nothing out the second time.
    pub proof fn lemma_service_idempotent(pre: &Self, post: &Self, now: Cycle)
        requires
            pre.wf(),
            pre.serviced(post, now),
        ensures
            post.serviced_out(now).len() == 0,
    {
        Self::lemma_drained_cycle(pre, post, now);
    }

    /// Drain every completion that is ready at `now`, oldest first.
    pub fn service_ready(&mut self, now: Cycle) -> (r: Vec<ServiceResult<T>>)
        requires
            old(self).wf(),
        ensures
            final(self).seen_cycle() == max_spec(old(self).seen_cycle(), now),
            final(self).admitted_count() == old(self).admitted_count(),
            final(self).handed_count() == old(self).handed_count() + r@.len(),
            r@ == old(self).serviced_out(now),
            old(self).serviced(final(self), now),
    {
        self.advance_ready(now);
        let ghost d0 = self.ready@;
        let ghost mid = *self;
        let mut out: Vec<ServiceResult<T>> = Vec::new();
        while self.ready.len() > 0
            invariant
                out@ + self.ready@ == d0,
                self.inflight@ == mid.inflight@,
                self.config == mid.config,
                self.next_issue_at == mid.next_issue_at,
                self.warmup_until == mid.warmup_until,
                self.last_completion_cycle == mid.last_completion_cycle,
                self.completions_this_cycle == mid.completions_this_cycle,
                self.stats == mid.stats,
                mid.wf(),
                self.ready@.len() <= d0.len(),
                self.admitted == mid.admitted,
                self.handed_out@ == mid.handed_out@ + out@.len(),
                self.seen == mid.seen,
            decreases self.ready@.len(),
        {
            let item = self.ready.pop_front().unwrap();
            out.push(item);
            self.handed_out = Ghost(self.handed_out@ + 1);
            proof {
                assert(out@ + self.ready@ =~= d0);
            }
        }
        assert(out@ =~= d0);
        self.update_idle(now);
        out
    }

    /// The oldest completion already made visible, if any.
    pub fn front_ready(&self) -> (r: Option<&ServiceResult<T>>)
        ensures
            self.done().len() == 0 ==> r is None,
            self.done().len() > 0 ==> r == Some(&self.done()[0]),
    {
        if self.ready.len() == 0 {
            None
        } else {
            Some(&self.ready[0])
        }
    }

    /// Observe the next ready completion without consuming it.
    pub fn peek_ready(&mut self, now: Cycle) -> (r: Option<&ServiceResult<T>>)
        requires
            old(self).wf(),
        ensures
            final(self).seen_cycle() == max_spec(old(self).seen_cycle(), now),
            final(self).admitted_count() == old(self).admitted_count(),
            final(self).handed_count() == old(self).handed_count(),
            old(self).advanced(final(self), now),
            match r {
                Some(x) => old(self).ready_head(now) == Some(*x),
                None => old(self).ready_head(now) is None,
            },
            final(self).ready_head(now) == old(self).ready_head(now),
            final(self).outstanding_spec() == old(self).outstanding_spec(),
            final(self).done().len() == 0 ==> r is None,
            final(self).done().len() > 0 ==> r == Some(&final(self).done()[0]),
            final(self).moved_at(now) == 0,
            final(self).done() + final(self).pending().take(final(self).moved_at(now) as int)
                == old(self).done() + old(self).pending().take(old(self).moved_at(now) as int),
    {
        let ghost pre = *self;
        self.advance_ready(now);
        proof {
            Self::lemma_peek_keeps_head(&pre, self, now);
            Self::lemma_same_cycle_moves_once(&pre, self, now);
            assert(self.pending().take(0) =~= Seq::<ServiceResult<T>>::empty());
            assert(self.done() + self.pending().take(0) =~= self.done());
        }
        if self.ready.len() == 0 {
            None
        } else {
            Some(&self.ready[0])
        }
    }

    /// Consume and return the next ready completion, if any.
    pub fn pop_ready(&mut self, now: Cycle) -> (r: Option<ServiceResult<T>>)
        requires
            old(self).wf(),
        ensures
            final(self).seen_cycle() == max_spec(old(self).seen_cycle(), now),
            final(self).admitted_count() == old(self).admitted_count(),
            final(self).handed_count() == old(self).handed_count() + if r is Some {
                1nat
            } else {
                0nat
            },
            r == old(self).ready_head(now),
            final(self).wf(),
            ({
                let k = old(self).moved_at(now) as int;
                let vis = old(self).done() + old(self).pending().take(k);
                &&& final(self).pending() == old(self).pending().skip(k)
                &&& final(self).cfg() == old(self).cfg()
                &&& final(self).warmup() == old(self).warmup()
                &&& final(self).last_cycle() == now
                &&& final(self).cycle_count() == old(self).used_at(now) + k
                &&& final(self).stat() == (ServerStats {
                    completed: sat_add(old(self).stat().completed as int, k),
                    bytes_completed: sat_add(
                        old(self).stat().bytes_completed as int,
                        bytes_of(old(self).pending().take(k)),
                    ),
                    ..old(self).stat()
                })
                &&& vis.len() == 0 ==> r is None && final(self).done() == vis
                    && final(self).next_issue() == old(self).next_issue()
                &&& vis.len() > 0 ==> r == Some(vis[0]) && final(self).done() == vis.drop_first()
                    && final(self).next_issue() == Self::idle_next_issue(
                    final(self).pending().len(),
                    final(self).done().len(),
                    old(self).next_issue(),
                    now,
                )
            }),
    {
        self.advance_ready(now);
        let result = self.ready.pop_front();
        if result.is_some() {
            self.handed_out = Ghost(self.handed_out@ + 1);
            self.update_idle(now);
        }
        result
    }

    /// Number of outstanding requests (in flight or waiting to be drained).
    pub fn outstanding(&self) -> (r: usize)
        requires
            self.wf(),
        ensures
            r == self.outstanding_spec(),
            r <= self.cfg().queue_capacity,
    {
        self.outstanding_len()
    }

    fn outstanding_len(&self) -> (r: usize)
        requires
            self.wf(),
        ensures
            r == self.outstanding_spec(),
            r <= self.cfg().queue_capacity,
    {
        self.inflight.len() + self.ready.len()
    }

    pub fn stats(&self) -> (r: ServerStats)
        ensures
            r == self.stat(),
    {
        self.stats
    }

    pub fn clear_stats(&mut self)
        ensures
            final(self).seen_cycle() == old(self).seen_cycle(),
            final(self).admitted_count() == old(self).admitted_count(),
            final(self).handed_count() == old(self).handed_count(),
            final(self).stat().is_zero(),
            final(self).cfg() == old(self).cfg(),
            final(self).pending() == old(self).pending(),
            final(self).done() == old(self).done(),
            final(self).next_issue() == old(self).next_issue(),
            final(self).warmup() == old(self).warmup(),
            final(self).last_cycle() == old(self).last_cycle(),
            final(self).cycle_count() == old(self).cycle_count(),
            old(self).wf() ==> final(self).wf(),
    {
        self.stats = ServerStats::default();
    }

    pub fn set_warmup_until(&mut self, cycle: Cycle)
        ensures
            final(self).seen_cycle() == old(self).seen_cycle(),
            final(self).admitted_count() == old(self).admitted_count(),
            final(self).handed_count() == old(self).handed_count(),
            final(self).warmup() == cycle,
            final(self).cfg() == old(self).cfg(),
            final(self).pending() == old(self).pending(),
            final(self).done() == old(self).done(),
            final(self).next_issue() == old(self).next_issue(),
            final(self).last_cycle() == old(self).last_cycle(),
            final(self).cycle_count() == old(self).cycle_count(),
            final(self).stat() == old(self).stat(),
            old(self).wf() ==> final(self).wf(),
    {
        self.warmup_until = cycle;
    }
}

} // verus!
