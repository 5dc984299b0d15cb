//! Warp barriers: warps arrive at a barrier id; once enough of them have
//! arrived, a release is scheduled through a timed server, and the warps
//! are handed back when that release completes.

use crate::timeq::{
    max_spec, max_u64, sat_add, sat_sub, Cycle, ServerConfig, ServiceRequest, ServiceResult, Ticket,
    TimedServer,
};
use std::collections::HashMap;
use vstd::prelude::*;

verus! {

#[derive(Debug, Clone, Copy)]
pub struct BarrierConfig {
    pub enabled: bool,
    pub expected_warps: Option<usize>,
    pub barrier_id_bits: u32,
    pub queue: ServerConfig,
}

impl Default for BarrierConfig {
    fn default() -> (r: Self)
        ensures
            !r.enabled,
            r.expected_warps is None,
            r.barrier_id_bits == 0,
            r.queue.base_latency == 1,
            r.queue.bytes_per_cycle == 1,
            r.queue.queue_capacity == 4,
            r.queue.completions_per_cycle == 1,
            r.queue.warmup_latency == 0,
    {
        Self {
            enabled: false,
            expected_warps: None,
            barrier_id_bits: 0,
            queue: ServerConfig {
                base_latency: 1,
                bytes_per_cycle: 1,
                queue_capacity: 4,
                completions_per_cycle: 1,
                warmup_latency: 0,
            },
        }
    }
}

#[derive(Debug, Clone, Copy)]
pub struct BarrierSummary {
    pub arrivals: u64,
    pub queue_rejects: u64,
    pub release_events: u64,
    pub warps_released: u64,
    pub max_release_batch: u64,
    pub total_scheduled_wait_cycles: u64,
    pub max_scheduled_wait_cycles: u64,
}

impl BarrierSummary {
    pub open spec fn is_zero(self) -> bool {
        &&& self.arrivals == 0
        &&& self.queue_rejects == 0
        &&& self.release_events == 0
        &&& self.warps_released == 0
        &&& self.max_release_batch == 0
        &&& self.total_scheduled_wait_cycles == 0
        &&& self.max_scheduled_wait_cycles == 0
    }
}

impl Default for BarrierSummary {
    fn default() -> (r: Self)
        ensures
            r.is_zero(),
    {
        Self {
            arrivals: 0,
            queue_rejects: 0,
            release_events: 0,
            warps_released: 0,
            max_release_batch: 0,
            total_scheduled_wait_cycles: 0,
            max_scheduled_wait_cycles: 0,
        }
    }
}

/// What a barrier id holds: which warps have arrived, which warps wait for
/// a scheduled release, and when that release completes.
pub struct BarrierProgress {
    pub arrived: Seq<bool>,
    pub releasing: Seq<usize>,
    pub release_at: Option<Cycle>,
}

/// Number of `true` entries.
pub open spec fn count_true(s: Seq<bool>) -> nat
    decreases s.len(),
{
    if s.len() == 0 {
        0
    } else {
        count_true(s.drop_last()) + (if s.last() {
            1nat
        } else {
            0nat
        })
    }
}

/// Marking a warp not yet marked counts one more.
pub proof fn lemma_mark_counts(s: Seq<bool>, w: int)
    requires
        0 <= w < s.len(),
        !s[w],
    ensures
        count_true(s.update(w, true)) == count_true(s) + 1,
    decreases s.len(),
{
    let t = s.update(w, true);
    if w == s.len() - 1 {
        assert(t.drop_last() =~= s.drop_last());
    } else {
        lemma_mark_counts(s.drop_last(), w);
        assert(t.drop_last() =~= s.drop_last().update(w, true));
    }
}

/// A barrier nobody has arrived at counts no warp.
pub proof fn lemma_fresh_counts(n: nat)
    ensures
        count_true(fresh_progress(n).arrived) == 0,
    decreases n,
{
    let s = fresh_progress(n).arrived;
    if n > 0 {
        lemma_fresh_counts((n - 1) as nat);
        assert(s.drop_last() =~= fresh_progress((n - 1) as nat).arrived);
    }
}

/// Indices of the `true` entries, in increasing order.
pub open spec fn indices_true(s: Seq<bool>) -> Seq<usize>
    decreases s.len(),
{
    if s.len() == 0 {
        Seq::empty()
    } else if s.last() {
        indices_true(s.drop_last()).push((s.len() - 1) as usize)
    } else {
        indices_true(s.drop_last())
    }
}

/// The mask applied to barrier ids for a given number of id bits.
pub open spec fn id_mask_for(bits: u32) -> Option<u32> {
    if bits == 0 || bits >= 32 {
        None
    } else {
        Some(((1u32 << bits) - 1) as u32)
    }
}

pub open spec fn apply_mask(mask: Option<u32>, id: u32) -> u32 {
    match mask {
        None => id,
        Some(m) => id & m,
    }
}

/// With `bits` id bits (1 to 31), a barrier id is taken modulo `2^bits`:
/// ids below `2^bits` are barriers of their own, two ids name the same
/// barrier exactly when they agree modulo `2^bits`; with no bits (or all
/// 32 and more) every id is its own barrier.
pub proof fn lemma_id_mask_modulo(bits: u32, id: u32, other: u32)
    ensures
        1 <= bits < 32 ==> apply_mask(id_mask_for(bits), id) as int == id as int % vstd::arithmetic::power2::pow2(bits as nat) as int,
        1 <= bits < 32 && (id as int) < vstd::arithmetic::power2::pow2(bits as nat) ==> apply_mask(id_mask_for(bits), id) == id,
        1 <= bits < 32 ==> (apply_mask(id_mask_for(bits), id) == apply_mask(id_mask_for(bits), other) <==> id as int
            % vstd::arithmetic::power2::pow2(bits as nat) as int == other as int % vstd::arithmetic::power2::pow2(bits as nat) as int),
        bits == 0 || bits >= 32 ==> apply_mask(id_mask_for(bits), id) == id,
{
    if 1 <= bits < 32 {
        vstd::bits::lemma_u32_pow2_no_overflow(bits as nat);
        vstd::bits::lemma_u32_shl_is_mul(1u32, bits);
        assert((1u32 << bits) as int == vstd::arithmetic::power2::pow2(bits as nat));
        assert((((1u32 << bits) - 1) as u32) == (vstd::bits::low_bits_mask(bits as nat) as u32));
        vstd::bits::lemma_u32_low_bits_mask_is_mod(id, bits as nat);
        vstd::bits::lemma_u32_low_bits_mask_is_mod(other, bits as nat);
        if (id as int) < vstd::arithmetic::power2::pow2(bits as nat) {
            vstd::arithmetic::div_mod::lemma_small_mod(id as nat, vstd::arithmetic::power2::pow2(bits as nat));
        }
    }
}

/// A barrier nobody has arrived at yet.
pub open spec fn fresh_progress(n: nat) -> BarrierProgress {
    BarrierProgress { arrived: Seq::new(n, |i: int| false), releasing: Seq::empty(), release_at: None }
}

/// Map after the completions of `ids` have been processed in order: each
/// known id has its releasing warps handed out and its release cleared.
pub open spec fn drain_ids(m: Map<u32, BarrierProgress>, ids: Seq<u32>) -> Map<u32, BarrierProgress>
    decreases ids.len(),
{
    if ids.len() == 0 {
        m
    } else {
        let m1 = drain_ids(m, ids.drop_last());
        let id = ids.last();
        if m1.contains_key(id) {
            m1.insert(
                id,
                BarrierProgress { releasing: Seq::empty(), release_at: None, ..m1[id] },
            )
        } else {
            m1
        }
    }
}

/// Warps handed out while the completions of `ids` are processed in order.
pub open spec fn released_by(m: Map<u32, BarrierProgress>, ids: Seq<u32>) -> Seq<usize>
    decreases ids.len(),
{
    if ids.len() == 0 {
        Seq::empty()
    } else {
        let m1 = drain_ids(m, ids.drop_last());
        let id = ids.last();
        released_by(m, ids.drop_last()) + (if m1.contains_key(id) {
            m1[id].releasing
        } else {
            Seq::empty()
        })
    }
}

proof fn lemma_indices_bounded(s: Seq<bool>)
    ensures
        indices_true(s).len() <= s.len(),
        forall|i: int| 0 <= i < indices_true(s).len() ==> #[trigger] indices_true(s)[i] < s.len(),
    decreases s.len(),
{
    if s.len() > 0 {
        lemma_indices_bounded(s.drop_last());
    }
}

/// Barrier ids carried by a sequence of completions.
pub open spec fn payloads(s: Seq<ServiceResult<u32>>) -> Seq<u32> {
    Seq::new(s.len(), |i: int| s[i].payload)
}

struct BarrierState {
    arrived: Vec<bool>,
    releasing: Vec<usize>,
    release_at: Option<Cycle>,
}

impl BarrierState {
    closed spec fn progress(&self) -> BarrierProgress {
        BarrierProgress {
            arrived: self.arrived@,
            releasing: self.releasing@,
            release_at: self.release_at,
        }
    }
}

fn falses(n: usize) -> (r: Vec<bool>)
    ensures
        r@ == Seq::new(n as nat, |i: int| false),
{
    let mut v: Vec<bool> = Vec::new();
    let mut i: usize = 0;
    while i < n
        invariant
            i <= n,
            v@ == Seq::new(i as nat, |j: int| false),
        decreases n - i,
    {
        v.push(false);
        i = i + 1;
        proof {
            assert(v@ =~= Seq::new(i as nat, |j: int| false));
        }
    }
    v
}

fn count_arrived(arrived: &Vec<bool>) -> (r: usize)
    ensures
        r == count_true(arrived@),
{
    let mut count: usize = 0;
    let mut i: usize = 0;
    while i < arrived.len()
        invariant
            i <= arrived@.len(),
            count == count_true(arrived@.take(i as int)),
            count <= i,
        decreases arrived@.len() - i,
    {
        assert(arrived@.take(i as int + 1).drop_last() =~= arrived@.take(i as int));
        if arrived[i] {
            count = count + 1;
        }
        i = i + 1;
    }
    assert(arrived@.take(i as int) =~= arrived@);
    count
}

/// Hand out the indices of the arrived warps and clear every arrival.
fn take_arrived(arrived: &mut Vec<bool>) -> (r: Vec<usize>)
    ensures
        r@ == indices_true(old(arrived)@),
        final(arrived)@ == Seq::new(old(arrived)@.len(), |i: int| false),
{
    let ghost a0 = arrived@;
    let mut warps: Vec<usize> = Vec::new();
    let mut idx: usize = 0;
    while idx < arrived.len()
        invariant
            arrived@.len() == a0.len(),
            idx <= a0.len(),
            warps@ == indices_true(a0.take(idx as int)),
            forall|j: int| 0 <= j < idx ==> !arrived@[j],
            forall|j: int| idx <= j < a0.len() ==> arrived@[j] == a0[j],
        decreases a0.len() - idx,
    {
        assert(a0.take(idx as int + 1).drop_last() =~= a0.take(idx as int));
        if arrived[idx] {
            warps.push(idx);
            arrived.set(idx, false);
        }
        idx = idx + 1;
    }
    assert(a0.take(idx as int) =~= a0);
    assert(arrived@ =~= Seq::new(a0.len(), |i: int| false));
    warps
}

pub struct BarrierManager {
    enabled: bool,
    expected_warps: usize,
    server: TimedServer<u32>,
    states: HashMap<u32, BarrierState>,
    num_warps: usize,
    id_mask: Option<u32>,
    stats: BarrierSummary,
}

impl BarrierManager {
    pub closed spec fn enabled_spec(&self) -> bool {
        self.enabled
    }

    /// Number of arrivals that triggers a release.
    pub closed spec fn expected(&self) -> usize {
        self.expected_warps
    }

    pub closed spec fn warps(&self) -> usize {
        self.num_warps
    }

    pub closed spec fn mask(&self) -> Option<u32> {
        self.id_mask
    }

    /// The server that schedules releases.
    pub closed spec fn queue(&self) -> TimedServer<u32> {
        self.server
    }

    pub closed spec fn stat(&self) -> BarrierSummary {
        self.stats
    }

    /// Progress of each barrier id seen so far.
    pub closed spec fn barriers(&self) -> Map<u32, BarrierProgress> {
        Map::new(|k: u32| self.states@.contains_key(k), |k: u32| self.states@[k].progress())
    }

    pub open spec fn wf(&self) -> bool {
        &&& self.queue().wf()
        &&& self.warps() >= 1
        &&& self.expected() <= self.warps()
        &&& forall|id: u32| #[trigger]
            self.barriers().contains_key(id) ==> self.barriers()[id].arrived.len() == self.warps()
        &&& forall|id: u32, i: int| #[trigger]
            self.barriers().contains_key(id) && 0 <= i < self.barriers()[id].releasing.len()
                ==> #[trigger] self.barriers()[id].releasing[i] < self.warps()
    }

    pub open spec fn masked(&self, barrier_id: u32) -> u32 {
        apply_mask(self.mask(), barrier_id)
    }

    /// Progress of `id`, or that of a fresh barrier if it has not been seen.
    pub open spec fn progress_of(&self, id: u32) -> BarrierProgress {
        if self.barriers().contains_key(id) {
            self.barriers()[id]
        } else {
            fresh_progress(self.warps() as nat)
        }
    }

    /// The configuration-derived fields agree.
    pub open spec fn same_setup(&self, other: &Self) -> bool {
        &&& self.enabled_spec() == other.enabled_spec()
        &&& self.expected() == other.expected()
        &&& self.warps() == other.warps()
        &&& self.mask() == other.mask()
    }

    /// `post` and `r` are the outcome of warp `warp` arriving at
    /// `barrier_id` at `now` on an enabled manager.
    pub open spec fn arrival(
        &self,
        post: &Self,
        now: Cycle,
        warp: usize,
        barrier_id: u32,
        r: Option<Cycle>,
    ) -> bool {
        let id = self.masked(barrier_id);
        let st = self.progress_of(id);
        let marked = st.arrived.update(warp as int, true);
        let q = self.queue();
        let counted = BarrierSummary { arrivals: sat_add(self.stat().arrivals as int, 1), ..self.stat() };
        &&& post.same_setup(self)
        &&& match st.release_at {
            Some(at) => {
                &&& r == Some(at)
                &&& post.barriers() == self.barriers().insert(id, st)
                &&& post.queue() == q
                &&& post.stat() == counted
            },
            None => if count_true(marked) < self.expected() {
                &&& r is None
                &&& post.barriers() == self.barriers().insert(
                    id,
                    BarrierProgress { arrived: marked, ..st },
                )
                &&& post.queue() == q
                &&& post.stat() == counted
            } else if q.is_full() || q.is_warming(now) {
                &&& r is None
                &&& post.barriers() == self.barriers().insert(
                    id,
                    BarrierProgress { arrived: marked, ..st },
                )
                &&& q.is_full() ==> q.refused_full(&post.queue())
                &&& !q.is_full() ==> q.refused_busy(&post.queue())
                &&& post.stat() == (BarrierSummary {
                    queue_rejects: sat_add(counted.queue_rejects as int, 1),
                    ..counted
                })
            } else {
                let at = q.ready_at_for(now, 0);
                let wait = sat_sub(at as int, now as int);
                &&& r == Some(at)
                &&& post.barriers() == self.barriers().insert(
                    id,
                    BarrierProgress {
                        arrived: Seq::new(marked.len(), |i: int| false),
                        releasing: indices_true(marked),
                        release_at: Some(at),
                    },
                )
                &&& exists|t: Ticket| q.accepted(&post.queue(), now, id, 0, t)
                &&& post.stat() == (BarrierSummary {
                    total_scheduled_wait_cycles: sat_add(
                        counted.total_scheduled_wait_cycles as int,
                        wait as int,
                    ),
                    max_scheduled_wait_cycles: max_spec(counted.max_scheduled_wait_cycles, wait),
                    ..counted
                })
            },
        }
    }
    /// A warp that has not yet arrived at a barrier with no release
    /// pending is counted once: while the count stays under the expected
    /// number the warp waits (`None`); the arrival that reaches it, with
    /// the release queue taking requests, schedules the release of the
    /// arrived warps, in increasing order, and answers its cycle.
    pub proof fn lemma_arrival_counted(pre: &Self, post: &Self, now: Cycle, warp: usize, barrier_id: u32, r: Option<Cycle>)
        requires
            pre.wf(),
            pre.enabled_spec(),
            warp < pre.warps(),
            pre.arrival(post, now, warp, barrier_id, r),
            pre.progress_of(pre.masked(barrier_id)).release_at is None,
            !pre.progress_of(pre.masked(barrier_id)).arrived[warp as int],
        ensures
            ({
                let id = pre.masked(barrier_id);
                let before = pre.progress_of(id).arrived;
                let c = count_true(before) + 1;
                &&& c < pre.expected() ==> r is None && post.progress_of(id).arrived == before.update(warp as int, true)
                    && count_true(post.progress_of(id).arrived) == c
                &&& c >= pre.expected() && !pre.queue().is_full() && !pre.queue().is_warming(now) ==> r == Some(
                    pre.queue().ready_at_for(now, 0),
                ) && post.progress_of(id).releasing == indices_true(before.update(warp as int, true))
                    && post.progress_of(id).release_at == r
            }),
    {
        let id = pre.masked(barrier_id);
        let st = pre.progress_of(id);
        if pre.barriers().contains_key(id) {
            assert(st.arrived.len() == pre.warps());
        } else {
            assert(st.arrived.len() == pre.warps());
        }
        lemma_mark_counts(st.arrived, warp as int);
        assert(post.barriers().contains_key(id));
    }

    pub fn new(config: BarrierConfig, num_warps: usize) -> (r: Self)
        requires
            config.queue.valid(),
        ensures
            r.wf(),
            r.enabled_spec() == config.enabled,
            r.warps() == (if num_warps >= 1 {
                num_warps
            } else {
                1
            }),
            r.expected() == (match config.expected_warps {
                None => r.warps(),
                Some(v) => if v <= r.warps() {
                    v
                } else {
                    r.warps()
                },
            }),
            r.mask() == id_mask_for(config.barrier_id_bits),
            r.barriers() == Map::<u32, BarrierProgress>::empty(),
            r.queue().cfg() == config.queue,
            r.queue().pending().len() == 0,
            r.queue().done().len() == 0,
            r.queue().next_issue() == 0,
            r.queue().warmup() == config.queue.warmup_latency,
            r.queue().stat().is_zero(),
            r.stat().is_zero(),
            r.queue().fresh(config.queue),
    {
        let num_warps = if num_warps >= 1 {
            num_warps
        } else {
            1
        };
        let expected = match config.expected_warps {
            None => num_warps,
            Some(v) => if v <= num_warps {
                v
            } else {
                num_warps
            },
        };
        let bits = config.barrier_id_bits;
        let id_mask = if bits == 0 {
            None
        } else if bits >= 32 {
            None
        } else {
            assert((1u32 << bits) >= 1) by (bit_vector)
                requires
                    1 <= bits < 32,
            ;
            Some((1u32 << bits) - 1)
        };
        let state_capacity: usize = if bits == 0 {
            1
        } else {
            let b: usize = if bits <= 16 {
                bits as usize
            } else {
                16
            };
            1usize << b
        };
        let states: HashMap<u32, BarrierState> = HashMap::with_capacity(state_capacity);
        let r = Self {
            enabled: config.enabled,
            expected_warps: expected,
            server: TimedServer::new(config.queue),
            states,
            num_warps,
            id_mask,
            stats: BarrierSummary::default(),
        };
        assert(r.barriers() =~= Map::<u32, BarrierProgress>::empty());
        r
    }

    fn apply_id_mask(&self, barrier_id: u32) -> (r: u32)
        ensures
            r == self.masked(barrier_id),
    {
        match self.id_mask {
            None => barrier_id,
            Some(mask) => barrier_id & mask,
        }
    }

    /// Warp `warp` arrives at `barrier_id` at `now`. A disabled manager, or
    /// a warp index out of range, lets the warp through at once. A barrier
    /// whose release is already scheduled answers with that cycle. When the
    /// arrival completes the expected count, a release is queued and its
    /// completion cycle returned; otherwise the warp waits (`None`).
    pub fn arrive(&mut self, now: Cycle, warp: usize, barrier_id: u32) -> (r: Option<Cycle>)
        requires
            old(self).wf(),
        ensures
            final(self).wf(),
            !old(self).enabled_spec() || warp >= old(self).warps() ==> r == Some(now)
                && *final(self) == *old(self),
            old(self).enabled_spec() && warp < old(self).warps() ==> old(self).arrival(
                final(self),
                now,
                warp,
                barrier_id,
                r,
            ),
    {
        if !self.enabled {
            return Some(now);
        }
        if warp >= self.num_warps {
            return Some(now);
        }
        let ghost pre = *self;
        self.stats.arrivals = self.stats.arrivals.saturating_add(1);
        let id = self.apply_id_mask(barrier_id);
        let ghost st = pre.progress_of(id);
        let mut state = match self.states.remove(&id) {
            Some(s) => s,
            None => BarrierState { arrived: falses(self.num_warps), releasing: Vec::new(), release_at: None },
        };
        assert(state.progress() == st);
        assert(self.states@ == pre.states@.remove(id));
        if let Some(release_at) = state.release_at {
            self.states.insert(id, state);
            assert(self.barriers() =~= pre.barriers().insert(id, st));
            return Some(release_at);
        }
        state.arrived.set(warp, true);
        let ghost marked = st.arrived.update(warp as int, true);
        assert(state.arrived@ == marked);
        let arrived_count = count_arrived(&state.arrived);
        if arrived_count < self.expected_warps {
            let ghost p = state.progress();
            self.states.insert(id, state);
            assert(self.barriers() =~= pre.barriers().insert(id, p));
            return None;
        }
        let request = ServiceRequest::new(id, 0);
        match self.server.try_enqueue(now, request) {
            Ok(ticket) => {
                let warps = take_arrived(&mut state.arrived);
                state.releasing = warps;
                let ready_at = ticket.ready_at();
                state.release_at = Some(ready_at);
                let wait = ready_at.saturating_sub(now);
                self.stats.total_scheduled_wait_cycles =
                    self.stats.total_scheduled_wait_cycles.saturating_add(wait);
                self.stats.max_scheduled_wait_cycles = max_u64(
                    self.stats.max_scheduled_wait_cycles,
                    wait,
                );
                let ghost p = state.progress();
                proof {
                    lemma_indices_bounded(marked);
                    assert(pre.server.accepted(&self.server, now, id, 0, ticket));
                }
                self.states.insert(id, state);
                assert(self.barriers() =~= pre.barriers().insert(id, p));
                Some(ready_at)
            },
            Err(_) => {
                self.stats.queue_rejects = self.stats.queue_rejects.saturating_add(1);
                let ghost p = state.progress();
                self.states.insert(id, state);
                assert(self.barriers() =~= pre.barriers().insert(id, p));
                None
            },
        }
    }

    /// Drain the releases that complete at `now` and hand out their warps,
    /// in completion order; `None` when no warp is released.
    pub fn tick(&mut self, now: Cycle) -> (r: Option<Vec<usize>>)
        requires
            old(self).wf(),
        ensures
            final(self).wf(),
            final(self).same_setup(old(self)),
            !old(self).enabled_spec() ==> r is None && *final(self) == *old(self),
            old(self).enabled_spec() ==> {
                let ids = payloads(old(self).queue().serviced_out(now));
                let rel = released_by(old(self).barriers(), ids);
                &&& old(self).queue().serviced(&final(self).queue(), now)
                &&& final(self).barriers() == drain_ids(old(self).barriers(), ids)
                &&& rel.len() == 0 ==> r is None && final(self).stat() == old(self).stat()
                &&& rel.len() > 0 ==> (r matches Some(v) && v@ == rel)
                &&& rel.len() > 0 ==> final(self).stat() == (BarrierSummary {
                    release_events: sat_add(old(self).stat().release_events as int, 1),
                    warps_released: sat_add(
                        old(self).stat().warps_released as int,
                        rel.len() as int,
                    ),
                    max_release_batch: max_spec(
                        old(self).stat().max_release_batch,
                        rel.len() as u64,
                    ),
                    ..old(self).stat()
                })
            },
    {
        if !self.enabled {
            return None;
        }
        let ghost pre = *self;
        let results = self.server.service_ready(now);
        let ghost ids = payloads(results@);
        let ghost m0 = pre.barriers();
        let ghost srv = self.server;
        let mut released: Vec<usize> = Vec::new();
        let mut i: usize = 0;
        while i < results.len()
            invariant
                i <= results@.len(),
                ids == payloads(results@),
                self.barriers() == drain_ids(m0, ids.take(i as int)),
                released@ == released_by(m0, ids.take(i as int)),
                self.wf(),
                self.same_setup(&pre),
                self.server == srv,
                self.stats == pre.stats,
            decreases results@.len() - i,
        {
            let id = results[i].payload;
            assert(ids.take(i as int + 1).drop_last() =~= ids.take(i as int));
            assert(ids.take(i as int + 1).last() == id);
            let ghost before = self.barriers();
            let ghost before_states = self.states@;
            match self.states.remove(&id) {
                Some(st) => {
                    let mut st = st;
                    released.append(&mut st.releasing);
                    st.release_at = None;
                    let ghost p = st.progress();
                    self.states.insert(id, st);
                    assert(self.barriers() =~= before.insert(
                        id,
                        BarrierProgress { releasing: Seq::empty(), release_at: None, ..before[id] },
                    ));
                },
                None => {
                    assert(self.states@ =~= before_states);
                    assert(self.barriers() =~= before);
                },
            }
            i = i + 1;
        }
        assert(ids.take(i as int) =~= ids);
        if released.len() == 0 {
            None
        } else {
            let n = released.len() as u64;
            self.stats.release_events = self.stats.release_events.saturating_add(1);
            self.stats.warps_released = self.stats.warps_released.saturating_add(n);
            self.stats.max_release_batch = max_u64(self.stats.max_release_batch, n);
            Some(released)
        }
    }

    pub fn is_enabled(&self) -> (r: bool)
        ensures
            r == self.enabled_spec(),
    {
        self.enabled
    }

    pub fn stats(&self) -> (r: BarrierSummary)
        ensures
            r == self.stat(),
    {
        self.stats
    }

    pub fn clear_stats(&mut self)
        requires
            old(self).wf(),
        ensures
            final(self).wf(),
            final(self).stat().is_zero(),
            final(self).same_setup(old(self)),
            final(self).queue() == old(self).queue(),
            final(self).barriers() == old(self).barriers(),
    {
        self.stats = BarrierSummary::default();
    }
}

} // verus!
