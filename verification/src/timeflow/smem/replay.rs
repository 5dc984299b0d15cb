//! Timed replay of per-lane address patterns through a fresh copy of the
//! shared-memory pipeline, modelling traffic generators that issue one
//! request per lane at a time.

use crate::timeflow::graph::FlowGraph;
use crate::timeflow::smem::arbiter::classify_smem_client;
use crate::timeflow::smem::lanes::min_int;
use crate::timeflow::smem::subgraph::SmemSubgraph;
use crate::timeflow::smem::{
    at_least_one, SmemCompletion, SmemFlowConfig, SmemPatternResult, SmemPatternRun, SmemRequest,
};
use crate::timeflow::types::CoreFlowPayload;
use crate::timeq::{sat_add, sat_mul_usize, Cycle};
use vstd::multiset::Multiset;
use vstd::prelude::*;

verus! {

/// A pattern being replayed: per lane, the next row to issue, the requests
/// in flight and the first cycle it may issue again.
struct ActivePatternState {
    run: SmemPatternRun,
    start_cycle: Cycle,
    req_idx: Vec<usize>,
    inflight: Vec<usize>,
    next_issue_at: Vec<Cycle>,
    completed_lane_reqs: usize,
}

/// `res` reports on `run`: the run's stream, pattern, names and shape, and
/// a duration that ends no later than the finish cycle.
pub open spec fn reports_on(res: SmemPatternResult, run: SmemPatternRun) -> bool {
    &&& res.stream_id == run.stream_id
    &&& res.pattern_idx == run.pattern_idx
    &&& res.suite == run.suite
    &&& res.pattern_name == run.pattern_name
    &&& res.reqs_per_lane == run.addrs@.len() as u32
    &&& res.active_lanes == run.active_lanes
    &&& res.issue_gap == run.issue_gap
    &&& res.max_outstanding == run.max_inflight_per_lane
    &&& res.working_set_bytes == run.working_set_bytes
    &&& res.duration_cycles <= res.finished_cycle
}

/// Lane requests of `run`: its rows times its active lanes (taken as one
/// when zero), saturating at `usize::MAX`.
pub open spec fn run_lane_reqs(run: SmemPatternRun) -> u64 {
    let lanes: int = if run.active_lanes == 0 {
        1
    } else {
        run.active_lanes as int
    };
    let m = run.addrs@.len() * lanes;
    (if m > usize::MAX {
        usize::MAX as int
    } else {
        m
    }) as u64
}

/// `acc` plus the lane requests of the first `n` runs of `runs`, one after
/// the other, saturating.
pub open spec fn lane_reqs_from(acc: u64, runs: Seq<SmemPatternRun>, n: int) -> u64
    decreases n,
{
    if n <= 0 {
        acc
    } else {
        sat_add(lane_reqs_from(acc, runs, n - 1) as int, run_lane_reqs(runs[n - 1]) as int)
    }
}

/// Lane requests of the runs of the first `n` streams, stream by stream,
/// saturating.
pub open spec fn total_lane_reqs(streams: Seq<Vec<SmemPatternRun>>, n: int) -> u64
    decreases n,
{
    if n <= 0 {
        0
    } else {
        lane_reqs_from(total_lane_reqs(streams, n - 1), streams[n - 1]@, streams[n - 1]@.len() as int)
    }
}

/// Cycles a replay of `streams` may take: 1024 per lane request plus a
/// million (saturating), and never fewer than 4096.
pub open spec fn replay_budget(streams: Seq<Vec<SmemPatternRun>>) -> u64 {
    let t = total_lane_reqs(streams, streams.len() as int) as int;
    let m = sat_add(
        if t * 1024 > u64::MAX {
            u64::MAX as int
        } else {
            t * 1024
        },
        1_000_000,
    );
    if m < 4096 {
        4096
    } else {
        m
    }
}

/// `run` is one of the runs of `streams`.
pub open spec fn listed_run(streams: Seq<Vec<SmemPatternRun>>, run: SmemPatternRun) -> bool {
    exists|s: int, p: int|
        0 <= s < streams.len() && 0 <= p < streams[s]@.len() && #[trigger] streams[s]@[p] == run
}

/// `res` reports on one of the runs of `streams`.
pub open spec fn reports_on_listed(streams: Seq<Vec<SmemPatternRun>>, res: SmemPatternResult) -> bool {
    exists|run: SmemPatternRun| #[trigger] listed_run(streams, run) && reports_on(res, run)
}

/// Every run still waiting or being replayed is one of the runs of `g`.
spec fn runs_listed(
    g: Seq<Vec<SmemPatternRun>>,
    pending: Seq<Vec<SmemPatternRun>>,
    active: Seq<Option<ActivePatternState>>,
) -> bool {
    &&& forall|s: int, p: int|
        0 <= s < pending.len() && 0 <= p < pending[s]@.len() ==> listed_run(g, #[trigger] pending[s]@[p])
    &&& forall|s: int|
        0 <= s < active.len() && (#[trigger] active[s]) is Some ==> listed_run(g, active[s].unwrap().run)
}

/// `post` has a pattern where `pre` has one, replaying the same run.
spec fn same_runs(pre: Seq<Option<ActivePatternState>>, post: Seq<Option<ActivePatternState>>) -> bool {
    &&& post.len() == pre.len()
    &&& forall|t: int|
        0 <= t < pre.len() ==> ((#[trigger] post[t]) is Some <==> pre[t] is Some) && (pre[t] is Some
            ==> post[t].unwrap().run == pre[t].unwrap().run)
}

/// Lanes a pattern drives: its active lanes (at least one), no more than
/// its first row has addresses (its active lanes when it has no rows) and
/// no more than `config_lanes` (at least one).
pub open spec fn lane_count_spec(run: SmemPatternRun, config_lanes: usize) -> int {
    let first = if run.addrs@.len() > 0 {
        run.addrs@[0]@.len() as int
    } else {
        run.active_lanes as int
    };
    min_int(
        min_int(at_least_one(run.active_lanes as int), at_least_one(first)),
        at_least_one(config_lanes as int),
    )
}

pub fn lane_count_for_run(run: &SmemPatternRun, config_lanes: usize) -> (r: usize)
    ensures
        r == lane_count_spec(*run, config_lanes),
        r >= 1,
{
    let first: usize = if run.addrs.len() > 0 {
        run.addrs[0].len()
    } else {
        run.active_lanes
    };
    let available: usize = if first == 0 {
        1
    } else {
        first
    };
    let active: usize = if run.active_lanes == 0 {
        1
    } else {
        run.active_lanes
    };
    let limit: usize = if config_lanes == 0 {
        1
    } else {
        config_lanes
    };
    let a = if active <= available {
        active
    } else {
        available
    };
    if a <= limit {
        a
    } else {
        limit
    }
}

/// `a * b`, saturating at `u64::MAX`.
fn sat_mul_u64(a: u64, b: u64) -> (r: u64)
    ensures
        a * b <= u64::MAX ==> r == a * b,
        a * b > u64::MAX ==> r == u64::MAX,
{
    match a.checked_mul(b) {
        Some(x) => x,
        None => u64::MAX,
    }
}

/// `v[i]`, or `d` past the end.
fn get_or(v: &Vec<usize>, i: usize, d: usize) -> (r: usize)
    ensures
        r == if i < v@.len() {
            v@[i as int]
        } else {
            d
        },
{
    if i < v.len() {
        v[i]
    } else {
        d
    }
}

fn get_cycle_or(v: &Vec<Cycle>, i: usize, d: Cycle) -> (r: Cycle)
    ensures
        r == if i < v@.len() {
            v@[i as int]
        } else {
            d
        },
{
    if i < v.len() {
        v[i]
    } else {
        d
    }
}

/// Lane `lane` of `pattern` may issue at `now`: it has a row left whose
/// width covers it, fewer requests in flight than allowed, and its issue
/// gap has elapsed.
spec fn lane_eligible(pattern: ActivePatternState, now: Cycle, lane: int) -> bool {
    let row = get_spec(pattern.req_idx@, lane, 0) as int;
    &&& row < pattern.run.addrs@.len()
    &&& get_spec(pattern.inflight@, lane, 0) < at_least_one(pattern.run.max_inflight_per_lane as int)
    &&& now >= get_cycle_spec(pattern.next_issue_at@, lane, pattern.start_cycle)
    &&& lane < pattern.run.addrs@[row]@.len()
}

/// The eligible lanes among the first `n`, in lane order, each with the
/// address of its next row.
spec fn issue_candidates(pattern: ActivePatternState, now: Cycle, n: nat) -> Seq<(usize, u64)>
    decreases n,
{
    if n == 0 {
        Seq::empty()
    } else {
        let lane = n - 1;
        let prev = issue_candidates(pattern, now, (n - 1) as nat);
        if lane_eligible(pattern, now, lane) {
            let row = get_spec(pattern.req_idx@, lane, 0) as int;
            prev.push((lane as usize, pattern.run.addrs@[row]@[lane]))
        } else {
            prev
        }
    }
}

/// Lanes of `pattern` that may issue at `now`, with the address they issue:
/// rows left, fewer requests in flight than allowed (at least one), and
/// their issue gap elapsed.
fn lane_issue_candidates(pattern: &ActivePatternState, now: Cycle, config_lanes: usize) -> (r: Vec<(usize, u64)>)
    ensures
        forall|i: int|
            0 <= i < r@.len() ==> {
                let lane = (#[trigger] r@[i]).0 as int;
                let row = get_spec(pattern.req_idx@, lane, 0) as int;
                &&& lane < lane_count_spec(pattern.run, config_lanes)
                &&& row < pattern.run.addrs@.len()
                &&& lane < pattern.run.addrs@[row]@.len()
                &&& r@[i].1 == pattern.run.addrs@[row]@[lane]
                &&& get_spec(pattern.inflight@, lane, 0) < at_least_one(
                    pattern.run.max_inflight_per_lane as int,
                )
                &&& now >= get_cycle_spec(pattern.next_issue_at@, lane, pattern.start_cycle)
            },
        r@ == issue_candidates(*pattern, now, lane_count_spec(pattern.run, config_lanes) as nat),
{
    let lane_count = lane_count_for_run(&pattern.run, config_lanes);
    let max_inflight: usize = if pattern.run.max_inflight_per_lane == 0 {
        1
    } else {
        pattern.run.max_inflight_per_lane
    };
    let mut candidates: Vec<(usize, u64)> = Vec::new();
    let mut lane: usize = 0;
    while lane < lane_count
        invariant
            lane_count == lane_count_spec(pattern.run, config_lanes),
            max_inflight == at_least_one(pattern.run.max_inflight_per_lane as int),
            lane <= lane_count,
            candidates@ == issue_candidates(*pattern, now, lane as nat),
            forall|i: int|
                0 <= i < candidates@.len() ==> {
                    let l = (#[trigger] candidates@[i]).0 as int;
                    let row = get_spec(pattern.req_idx@, l, 0) as int;
                    &&& l < lane_count_spec(pattern.run, config_lanes)
                    &&& row < pattern.run.addrs@.len()
                    &&& l < pattern.run.addrs@[row]@.len()
                    &&& candidates@[i].1 == pattern.run.addrs@[row]@[l]
                    &&& get_spec(pattern.inflight@, l, 0) < at_least_one(
                        pattern.run.max_inflight_per_lane as int,
                    )
                    &&& now >= get_cycle_spec(pattern.next_issue_at@, l, pattern.start_cycle)
                },
        decreases lane_count - lane,
    {
        let row = get_or(&pattern.req_idx, lane, 0);
        if row < pattern.run.addrs.len() && get_or(&pattern.inflight, lane, 0) < max_inflight && now
            >= get_cycle_or(&pattern.next_issue_at, lane, pattern.start_cycle) && lane
            < pattern.run.addrs[row].len() {
            let addr = pattern.run.addrs[row][lane];
            candidates.push((lane, addr));
        }
        lane = lane + 1;
    }
    candidates
}

pub open spec fn get_spec(v: Seq<usize>, i: int, d: usize) -> usize {
    if 0 <= i < v.len() {
        v[i]
    } else {
        d
    }
}

pub open spec fn get_cycle_spec(v: Seq<Cycle>, i: int, d: Cycle) -> Cycle {
    if 0 <= i < v.len() {
        v[i]
    } else {
        d
    }
}

/// `n` copies of `x`.
fn filled_usizes(n: usize, x: usize) -> (r: Vec<usize>)
    ensures
        r@.len() == n,
{
    let mut v: Vec<usize> = Vec::new();
    while v.len() < n
        invariant
            v@.len() <= n,
        decreases n - v@.len(),
    {
        v.push(x);
    }
    v
}

fn filled_cycles(n: usize, x: Cycle) -> (r: Vec<Cycle>)
    ensures
        r@.len() == n,
{
    let mut v: Vec<Cycle> = Vec::new();
    while v.len() < n
        invariant
            v@.len() <= n,
        decreases n - v@.len(),
    {
        v.push(x);
    }
    v
}

/// Runs listed in `p`, over all streams.
pub open spec fn total_runs(p: Seq<Vec<SmemPatternRun>>) -> int
    decreases p.len(),
{
    if p.len() == 0 {
        0
    } else {
        total_runs(p.drop_last()) + p.last()@.len()
    }
}

/// Streams with a pattern running.
spec fn active_count(a: Seq<Option<ActivePatternState>>) -> int
    decreases a.len(),
{
    if a.len() == 0 {
        0
    } else {
        active_count(a.drop_last()) + if a.last() is Some {
            1int
        } else {
            0int
        }
    }
}

proof fn lemma_total_runs_update(p: Seq<Vec<SmemPatternRun>>, i: int, v: Vec<SmemPatternRun>)
    requires
        0 <= i < p.len(),
    ensures
        total_runs(p.update(i, v)) == total_runs(p) - p[i]@.len() + v@.len(),
        total_runs(p) >= p[i]@.len(),
    decreases p.len(),
{
    let q = p.update(i, v);
    if i == p.len() - 1 {
        assert(q.drop_last() =~= p.drop_last());
        lemma_total_runs_nonneg(p.drop_last());
    } else {
        lemma_total_runs_update(p.drop_last(), i, v);
        assert(q.drop_last() =~= p.drop_last().update(i, v));
    }
}

proof fn lemma_total_runs_nonneg(p: Seq<Vec<SmemPatternRun>>)
    ensures
        total_runs(p) >= 0,
    decreases p.len(),
{
    if p.len() > 0 {
        lemma_total_runs_nonneg(p.drop_last());
    }
}

proof fn lemma_active_count_update(a: Seq<Option<ActivePatternState>>, i: int, x: Option<ActivePatternState>)
    requires
        0 <= i < a.len(),
    ensures
        active_count(a.update(i, x)) == active_count(a) - (if a[i] is Some {
            1int
        } else {
            0int
        }) + (if x is Some {
            1int
        } else {
            0int
        }),
    decreases a.len(),
{
    let b = a.update(i, x);
    if i == a.len() - 1 {
        assert(b.drop_last() =~= a.drop_last());
    } else {
        lemma_active_count_update(a.drop_last(), i, x);
        assert(b.drop_last() =~= a.drop_last().update(i, x));
    }
}

proof fn lemma_active_count_nonneg(a: Seq<Option<ActivePatternState>>)
    ensures
        active_count(a) >= 0,
    decreases a.len(),
{
    if a.len() > 0 {
        lemma_active_count_nonneg(a.drop_last());
    }
}

proof fn lemma_active_count_same(a: Seq<Option<ActivePatternState>>, b: Seq<Option<ActivePatternState>>)
    requires
        same_runs(a, b),
    ensures
        active_count(b) == active_count(a),
    decreases a.len(),
{
    if a.len() > 0 {
        assert(b.last() is Some <==> a.last() is Some);
        assert(same_runs(a.drop_last(), b.drop_last()));
        lemma_active_count_same(a.drop_last(), b.drop_last());
    }
}

/// The stream and pattern a run is listed under.
pub open spec fn run_key(run: SmemPatternRun) -> (usize, usize) {
    (run.stream_id, run.pattern_idx)
}

/// The stream and pattern each of `runs` is listed under, with repeats.
pub open spec fn run_keys(runs: Seq<SmemPatternRun>) -> Multiset<(usize, usize)> {
    runs.map_values(|run: SmemPatternRun| run_key(run)).to_multiset()
}

/// The stream and pattern of every run of `streams`, with repeats.
pub open spec fn listed_keys(streams: Seq<Vec<SmemPatternRun>>) -> Multiset<(usize, usize)>
    decreases streams.len(),
{
    if streams.len() == 0 {
        Multiset::empty()
    } else {
        listed_keys(streams.drop_last()).add(run_keys(streams.last()@))
    }
}

/// The stream and pattern each of `results` reports on, with repeats.
pub open spec fn result_keys(results: Seq<SmemPatternResult>) -> Multiset<(usize, usize)> {
    results.map_values(|res: SmemPatternResult| (res.stream_id, res.pattern_idx)).to_multiset()
}

/// The stream and pattern of every running pattern.
spec fn active_keys(a: Seq<Option<ActivePatternState>>) -> Multiset<(usize, usize)>
    decreases a.len(),
{
    if a.len() == 0 {
        Multiset::empty()
    } else {
        active_keys(a.drop_last()).add(slot_keys(a.last()))
    }
}

spec fn slot_keys(x: Option<ActivePatternState>) -> Multiset<(usize, usize)> {
    match x {
        Some(st) => Multiset::singleton(run_key(st.run)),
        None => Multiset::empty(),
    }
}

proof fn lemma_listed_keys_update(p: Seq<Vec<SmemPatternRun>>, i: int, v: Vec<SmemPatternRun>)
    requires
        0 <= i < p.len(),
    ensures
        listed_keys(p.update(i, v)).add(run_keys(p[i]@)) == listed_keys(p).add(run_keys(v@)),
    decreases p.len(),
{
    broadcast use vstd::multiset::group_multiset_axioms;
    let q = p.update(i, v);
    if i == p.len() - 1 {
        assert(q.drop_last() =~= p.drop_last());
        assert(q.last() == v);
        assert(listed_keys(q) == listed_keys(q.drop_last()).add(run_keys(q.last()@)));
        assert(listed_keys(p) == listed_keys(p.drop_last()).add(run_keys(p.last()@)));
        assert(listed_keys(q).add(run_keys(p[i]@)) =~= listed_keys(p).add(run_keys(v@)));
    } else {
        lemma_listed_keys_update(p.drop_last(), i, v);
        assert(q.drop_last() =~= p.drop_last().update(i, v));
        assert(q.last() == p.last());
        assert(p.drop_last()[i] == p[i]);
        let a = listed_keys(p.drop_last().update(i, v));
        let b = listed_keys(p.drop_last());
        let kl = run_keys(p.last()@);
        let kpi = run_keys(p[i]@);
        let kv = run_keys(v@);
        assert(a.add(kpi) == b.add(kv));
        assert(listed_keys(q) == a.add(kl));
        assert(listed_keys(p) == b.add(kl));
        assert forall|k: (usize, usize)| #[trigger] a.add(kl).add(kpi).count(k) == b.add(kl).add(kv).count(k) by {
            assert(a.add(kpi).count(k) == b.add(kv).count(k));
        }
        assert(a.add(kl).add(kpi) =~= b.add(kl).add(kv));
    }
}

proof fn lemma_active_keys_update(a: Seq<Option<ActivePatternState>>, i: int, x: Option<ActivePatternState>)
    requires
        0 <= i < a.len(),
    ensures
        active_keys(a.update(i, x)).add(slot_keys(a[i])) == active_keys(a).add(slot_keys(x)),
    decreases a.len(),
{
    broadcast use vstd::multiset::group_multiset_axioms;
    let b = a.update(i, x);
    if i == a.len() - 1 {
        assert(b.drop_last() =~= a.drop_last());
        assert(b.last() == x);
        assert(active_keys(b) == active_keys(b.drop_last()).add(slot_keys(b.last())));
        assert(active_keys(a) == active_keys(a.drop_last()).add(slot_keys(a.last())));
        assert(active_keys(b).add(slot_keys(a[i])) =~= active_keys(a).add(slot_keys(x)));
    } else {
        lemma_active_keys_update(a.drop_last(), i, x);
        assert(b.drop_last() =~= a.drop_last().update(i, x));
        assert(b.last() == a.last());
        assert(a.drop_last()[i] == a[i]);
        let m = active_keys(a.drop_last().update(i, x));
        let n = active_keys(a.drop_last());
        let kl = slot_keys(a.last());
        let ki = slot_keys(a[i]);
        let kx = slot_keys(x);
        assert(m.add(ki) == n.add(kx));
        assert(active_keys(b) == m.add(kl));
        assert(active_keys(a) == n.add(kl));
        assert forall|k: (usize, usize)| #[trigger] m.add(kl).add(ki).count(k) == n.add(kl).add(kx).count(k) by {
            assert(m.add(ki).count(k) == n.add(kx).count(k));
        }
        assert(m.add(kl).add(ki) =~= n.add(kl).add(kx));
    }
}

proof fn lemma_active_keys_same(a: Seq<Option<ActivePatternState>>, b: Seq<Option<ActivePatternState>>)
    requires
        same_runs(a, b),
    ensures
        active_keys(b) == active_keys(a),
    decreases a.len(),
{
    if a.len() > 0 {
        assert(same_runs(a.drop_last(), b.drop_last()));
        lemma_active_keys_same(a.drop_last(), b.drop_last());
    }
}

/// A sequence of runs is its first run followed by the rest.
proof fn lemma_run_keys_first(runs: Seq<SmemPatternRun>)
    requires
        runs.len() > 0,
    ensures
        run_keys(runs) == run_keys(runs.drop_first()).insert(run_key(runs[0])),
{
    broadcast use vstd::seq_lib::group_to_multiset_ensures;
    let m = runs.map_values(|run: SmemPatternRun| run_key(run));
    assert(runs.drop_first().map_values(|run: SmemPatternRun| run_key(run)) =~= m.remove(0));
    assert(m.to_multiset().count(m[0]) > 0) by {
        assert(m.contains(m[0]));
    }
    assert(m.remove(0).to_multiset() == m.to_multiset().remove(m[0]));
    assert(m.to_multiset().remove(m[0]).insert(m[0]) =~= m.to_multiset());
}

/// Results with the same elements report on the same streams and patterns.
proof fn lemma_result_keys_perm(a: Seq<SmemPatternResult>, b: Seq<SmemPatternResult>)
    requires
        a.to_multiset() == b.to_multiset(),
    ensures
        result_keys(a) == result_keys(b),
    decreases a.len(),
{
    broadcast use vstd::seq_lib::group_to_multiset_ensures;
    if a.len() == 0 {
        assert(b.to_multiset().len() == 0);
        assert(b.len() == 0);
        assert(result_keys(a) =~= result_keys(b));
    } else {
        let x = a.last();
        assert(a.contains(x)) by {
            assert(a[a.len() - 1] == x);
        }
        assert(b.to_multiset().count(x) > 0);
        assert(b.contains(x));
        let j = choose|j: int| 0 <= j < b.len() && b[j] == x;
        assert(a.drop_last() =~= a.remove(a.len() - 1));
        assert(a.drop_last().to_multiset() == b.remove(j).to_multiset());
        lemma_result_keys_perm(a.drop_last(), b.remove(j));
        let f = |res: SmemPatternResult| (res.stream_id, res.pattern_idx);
        assert(a.map_values(f) =~= a.drop_last().map_values(f).push(f(x)));
        assert(b.remove(j).map_values(f) =~= b.map_values(f).remove(j));
        assert(b.map_values(f)[j] == f(x));
        assert(b.map_values(f).to_multiset().count(f(x)) > 0) by {
            assert(b.map_values(f).contains(f(x)));
        }
        assert(b.map_values(f).to_multiset().remove(f(x)).insert(f(x)) =~= b.map_values(f).to_multiset());
    }
}

/// Reporting on a running pattern and clearing its slot moves its key from
/// the running patterns to the results.
proof fn lemma_finish_keys(
    r0: Seq<SmemPatternResult>,
    res: SmemPatternResult,
    l: Multiset<(usize, usize)>,
    a0: Seq<Option<ActivePatternState>>,
    stream: int,
    all: Multiset<(usize, usize)>,
)
    requires
        0 <= stream < a0.len(),
        a0[stream] is Some,
        res.stream_id == a0[stream].unwrap().run.stream_id,
        res.pattern_idx == a0[stream].unwrap().run.pattern_idx,
        result_keys(r0).add(l.add(active_keys(a0))) == all,
    ensures
        result_keys(r0.push(res)).add(l.add(active_keys(a0.update(stream, None)))) == all,
{
    broadcast use vstd::multiset::group_multiset_axioms;
    broadcast use vstd::seq_lib::group_to_multiset_ensures;
    let k = (res.stream_id, res.pattern_idx);
    let f = |x: SmemPatternResult| (x.stream_id, x.pattern_idx);
    assert(r0.push(res).map_values(f) =~= r0.map_values(f).push(k));
    assert(result_keys(r0.push(res)) == result_keys(r0).insert(k));
    lemma_active_keys_update(a0, stream, None);
    let a1 = a0.update(stream, None);
    assert(slot_keys(a0[stream]) =~= Multiset::singleton(k));
    assert(slot_keys(None) =~= Multiset::<(usize, usize)>::empty());
    assert(active_keys(a1).add(Multiset::singleton(k)) == active_keys(a0).add(Multiset::empty()));
    assert forall|x: (usize, usize)| #[trigger] result_keys(r0.push(res)).add(l.add(active_keys(a1))).count(x) == all.count(x) by {
        assert(active_keys(a1).add(Multiset::singleton(k)).count(x) == active_keys(a0).add(Multiset::empty()).count(x));
        assert(result_keys(r0).add(l.add(active_keys(a0))).count(x) == all.count(x));
    }
    assert(result_keys(r0.push(res)).add(l.add(active_keys(a1))) =~= all);
}

/// What the results hold of the listed keys, beside what still waits or
/// runs, is no more than the listed keys.
proof fn lemma_keys_within(r: Multiset<(usize, usize)>, rest: Multiset<(usize, usize)>, all: Multiset<(usize, usize)>)
    requires
        r.add(rest) == all,
    ensures
        r.subset_of(all),
{
    broadcast use vstd::multiset::group_multiset_axioms;
    assert forall|x: (usize, usize)| #[trigger] r.count(x) <= all.count(x) by {
        assert(r.add(rest).count(x) == r.count(x) + rest.count(x));
    }
}

/// No results report on nothing, and adding nothing changes nothing.
proof fn lemma_no_result_keys(m: Multiset<(usize, usize)>)
    ensures
        result_keys(Seq::<SmemPatternResult>::empty()).add(m) == m,
        result_keys(Seq::<SmemPatternResult>::empty()).subset_of(m),
        m.add(Multiset::empty()) == m,
        active_keys(Seq::<Option<ActivePatternState>>::empty()) == Multiset::<(usize, usize)>::empty(),
{
    broadcast use vstd::multiset::group_multiset_axioms;
    broadcast use vstd::seq_lib::group_to_multiset_ensures;
    let e = Seq::<SmemPatternResult>::empty();
    assert(e.map_values(|x: SmemPatternResult| (x.stream_id, x.pattern_idx)) =~= Seq::<(usize, usize)>::empty());
    assert(Seq::<(usize, usize)>::empty().to_multiset().len() == 0);
    assert(result_keys(e) =~= Multiset::empty());
    assert(result_keys(e).add(m) =~= m);
    assert(m.add(Multiset::empty()) =~= m);
}

/// An empty slot adds no running key.
proof fn lemma_active_keys_push_none(a: Seq<Option<ActivePatternState>>)
    ensures
        active_keys(a.push(None)) == active_keys(a),
{
    broadcast use vstd::multiset::group_multiset_axioms;
    assert(a.push(None).drop_last() =~= a);
    assert(active_keys(a).add(Multiset::empty()) =~= active_keys(a));
}

/// Starting a stream's next pattern when none of it runs moves its key
/// from the listed runs to the running ones.
proof fn lemma_activation_keys(
    p0: Seq<Vec<SmemPatternRun>>,
    a0: Seq<Option<ActivePatternState>>,
    p1: Seq<Vec<SmemPatternRun>>,
    a1: Seq<Option<ActivePatternState>>,
    stream: int,
)
    requires
        0 <= stream < p0.len(),
        p0.len() == a0.len(),
        a0[stream] is None,
        p1.len() == p0.len(),
        a1.len() == a0.len(),
        p0[stream]@.len() == 0 ==> p1 == p0 && a1 == a0,
        p0[stream]@.len() > 0 ==> {
            &&& forall|t: int| #![trigger p1[t]] #![trigger a1[t]] 0 <= t < p0.len() && t != stream ==> p1[t] == p0[t] && a1[t] == a0[t]
            &&& p1[stream]@ == p0[stream]@.drop_first()
            &&& a1[stream] is Some
            &&& a1[stream].unwrap().run == p0[stream]@[0]
        },
    ensures
        listed_keys(p1).add(active_keys(a1)) == listed_keys(p0).add(active_keys(a0)),
{
    broadcast use vstd::multiset::group_multiset_axioms;
    if p0[stream]@.len() > 0 {
        lemma_listed_keys_update(p0, stream, p1[stream]);
        lemma_active_keys_update(a0, stream, a1[stream]);
        assert(p0.update(stream, p1[stream]) =~= p1);
        assert(a0.update(stream, a1[stream]) =~= a1);
        lemma_run_keys_first(p0[stream]@);
        let k0 = run_key(p0[stream]@[0]);
        let l1 = listed_keys(p1);
        let l0 = listed_keys(p0);
        let m1 = active_keys(a1);
        let m0 = active_keys(a0);
        assert(slot_keys(a0[stream]) =~= Multiset::empty());
        assert(slot_keys(a1[stream]) =~= Multiset::singleton(k0));
        assert(l1.add(run_keys(p0[stream]@)) == l0.add(run_keys(p1[stream]@)));
        assert(run_keys(p0[stream]@) == run_keys(p1[stream]@).insert(k0));
        assert(m1.add(Multiset::empty()) == m0.add(Multiset::singleton(k0)));
        assert forall|k: (usize, usize)| #[trigger] l1.add(m1).count(k) == l0.add(m0).count(k) by {
            assert(l1.add(run_keys(p0[stream]@)).count(k) == l0.add(run_keys(p1[stream]@)).count(k));
            assert(m1.add(Multiset::empty()).count(k) == m0.add(Multiset::singleton(k0)).count(k));
        }
        assert(l1.add(m1) =~= l0.add(m0));
    }
}

/// Starting a stream's next pattern when none of it runs moves one run from
/// the listed ones to the running ones.
proof fn lemma_activation_counts(
    p0: Seq<Vec<SmemPatternRun>>,
    a0: Seq<Option<ActivePatternState>>,
    p1: Seq<Vec<SmemPatternRun>>,
    a1: Seq<Option<ActivePatternState>>,
    stream: int,
)
    requires
        0 <= stream < p0.len(),
        p0.len() == a0.len(),
        a0[stream] is None,
        p1.len() == p0.len(),
        a1.len() == a0.len(),
        p0[stream]@.len() == 0 ==> p1 == p0 && a1 == a0,
        p0[stream]@.len() > 0 ==> {
            &&& forall|t: int| #![trigger p1[t]] #![trigger a1[t]] 0 <= t < p0.len() && t != stream ==> p1[t] == p0[t] && a1[t] == a0[t]
            &&& p1[stream]@ == p0[stream]@.drop_first()
            &&& a1[stream] is Some
        },
    ensures
        total_runs(p1) + active_count(a1) == total_runs(p0) + active_count(a0),
{
    if p0[stream]@.len() > 0 {
        lemma_total_runs_update(p0, stream, p1[stream]);
        lemma_active_count_update(a0, stream, a1[stream]);
        assert(p0.update(stream, p1[stream]) =~= p1);
        assert(a0.update(stream, a1[stream]) =~= a1);
    }
}

/// Start the next pattern of stream `stream` (if it has one) at `start`.
fn activate_next_pattern(
    pending: &mut Vec<Vec<SmemPatternRun>>,
    active: &mut Vec<Option<ActivePatternState>>,
    stream: usize,
    start: Cycle,
    Ghost(g): Ghost<Seq<Vec<SmemPatternRun>>>,
)
    requires
        old(pending)@.len() == old(active)@.len(),
        runs_listed(g, old(pending)@, old(active)@),
    ensures
        runs_listed(g, final(pending)@, final(active)@),
        final(pending)@.len() == old(pending)@.len(),
        final(active)@.len() == old(active)@.len(),
        stream >= old(pending)@.len() || old(pending)@[stream as int]@.len() == 0 ==> final(pending)@
            == old(pending)@ && final(active)@ == old(active)@,
        stream < old(pending)@.len() && old(pending)@[stream as int]@.len() > 0 ==> {
            &&& forall|t: int|
                #![trigger final(pending)@[t]]
                #![trigger final(active)@[t]]
                0 <= t < old(pending)@.len() && t != stream ==> final(pending)@[t] == old(
                    pending,
                )@[t] && final(active)@[t] == old(active)@[t]
            &&& final(pending)@[stream as int]@ == old(pending)@[stream as int]@.drop_first()
            &&& final(active)@[stream as int] is Some
            &&& final(active)@[stream as int].unwrap().run == old(pending)@[stream as int]@[0]
        },
{
    if stream >= pending.len() || pending[stream].len() == 0 {
        return;
    }
    let ghost p0 = pending@;
    let mut queue = pending.remove(stream);
    let run = queue.remove(0);
    pending.insert(stream, queue);
    proof {
        assert forall|t: int| 0 <= t < p0.len() && t != stream implies #[trigger] pending@[t] == p0[t] by {
            if t < stream {
                assert(pending@[t] == p0[t]);
            } else {
                assert(pending@[t] == p0.remove(stream as int)[t - 1]);
            }
        }
    }
    let lane_count = lane_count_for_run(&run, usize::MAX);
    let state = ActivePatternState {
        run,
        start_cycle: start,
        req_idx: filled_usizes(lane_count, 0),
        inflight: filled_usizes(lane_count, 0),
        next_issue_at: filled_cycles(lane_count, start),
        completed_lane_reqs: 0,
    };
    let ghost a0 = active@;
    active.set(stream, Some(state));
    proof {
        assert(listed_run(g, p0[stream as int]@[0]));
        assert forall|t: int, q: int|
            0 <= t < pending@.len() && 0 <= q < pending@[t]@.len() implies listed_run(
            g,
            #[trigger] pending@[t]@[q],
        ) by {
            if t == stream {
                assert(pending@[t]@[q] == p0[t]@[q + 1]);
            } else {
                assert(pending@[t] == p0[t]);
            }
        }
        assert forall|t: int| 0 <= t < active@.len() && (#[trigger] active@[t]) is Some implies listed_run(
            g,
            active@[t].unwrap().run,
        ) by {
            if t != stream {
                assert(active@[t] == a0[t]);
            }
        }
    }
}

/// Replaying the same runs keeps every run listed.
proof fn lemma_same_runs_listed(
    g: Seq<Vec<SmemPatternRun>>,
    pending: Seq<Vec<SmemPatternRun>>,
    a0: Seq<Option<ActivePatternState>>,
    a1: Seq<Option<ActivePatternState>>,
)
    requires
        runs_listed(g, pending, a0),
        same_runs(a0, a1),
    ensures
        runs_listed(g, pending, a1),
{
    assert forall|t: int| 0 <= t < a1.len() && (#[trigger] a1[t]) is Some implies listed_run(
        g,
        a1[t].unwrap().run,
    ) by {
        assert(a0[t] is Some);
    }
}

/// Lane requests a pattern issues in all: rows times lanes, saturated.
spec fn pattern_total(pattern: ActivePatternState, config_lanes: usize) -> int {
    let t = pattern.run.addrs@.len() * lane_count_spec(pattern.run, config_lanes);
    if t > usize::MAX {
        usize::MAX as int
    } else {
        t
    }
}

/// Lane `lane` issued all rows of the pattern and has nothing in flight.
spec fn lane_drained(pattern: ActivePatternState, lane: int) -> bool {
    &&& get_spec(pattern.req_idx@, lane, 0) >= pattern.run.addrs@.len()
    &&& get_spec(pattern.inflight@, lane, 0) == 0
}

/// Every lane of the pattern issued all its rows, none is in flight, and
/// all its lane requests completed (or it has nothing to issue).
spec fn pattern_done(pattern: ActivePatternState, config_lanes: usize) -> bool {
    let total = pattern_total(pattern, config_lanes);
    ||| total == 0
    ||| {
        &&& forall|lane: int|
            0 <= lane < lane_count_spec(pattern.run, config_lanes) ==> #[trigger] lane_drained(
                pattern,
                lane,
            )
        &&& pattern.completed_lane_reqs >= total
    }
}

/// Every lane of the pattern issued all its rows, none is in flight, and
/// all its lane requests completed (or it has nothing to issue).
fn pattern_finished(pattern: &ActivePatternState, config_lanes: usize) -> (r: bool)
    ensures
        r == pattern_done(*pattern, config_lanes),
{
    let lane_count = lane_count_for_run(&pattern.run, config_lanes);
    let rows = pattern.run.addrs.len();
    let total = sat_mul_usize(rows, lane_count);
    if total == 0 {
        return true;
    }
    let mut lane: usize = 0;
    while lane < lane_count
        invariant
            lane_count == lane_count_spec(pattern.run, config_lanes),
            rows == pattern.run.addrs@.len(),
            total == pattern_total(*pattern, config_lanes),
            total != 0,
            lane <= lane_count,
            forall|l: int| 0 <= l < lane ==> #[trigger] lane_drained(*pattern, l),
        decreases lane_count - lane,
    {
        if get_or(&pattern.req_idx, lane, 0) < rows || get_or(&pattern.inflight, lane, 0) != 0 {
            assert(!lane_drained(*pattern, lane as int));
            return false;
        }
        assert(lane_drained(*pattern, lane as int));
        lane = lane + 1;
    }
    pattern.completed_lane_reqs >= total
}

/// The request `id` was issued by entry `k` of `owner`, the first entry
/// with that id.
spec fn first_owner(owner: Seq<(u64, usize, usize)>, id: u64, k: int) -> bool {
    &&& 0 <= k < owner.len()
    &&& owner[k].0 == id
    &&& forall|j: int| 0 <= j < k ==> (#[trigger] owner[j]).0 != id
}

/// Position of the first entry of `owner` for request `id`; the length of
/// `owner` when there is none.
spec fn owner_index(owner: Seq<(u64, usize, usize)>, id: u64) -> int {
    if exists|k: int| first_owner(owner, id, k) {
        choose|k: int| first_owner(owner, id, k)
    } else {
        owner.len() as int
    }
}

/// Retiring the completions `done` in turn against `owner`: the owner
/// entries left, and the (stream, lane) credited by each completion that
/// found its entry, in order.
spec fn retire_owner(done: Seq<SmemCompletion>, owner: Seq<(u64, usize, usize)>) -> (Seq<
    (u64, usize, usize),
>, Seq<(usize, usize)>)
    decreases done.len(),
{
    if done.len() == 0 {
        (owner, Seq::empty())
    } else {
        let k = owner_index(owner, done[0].request.id);
        if k < owner.len() {
            let rest = retire_owner(done.drop_first(), owner.remove(k));
            (rest.0, seq![(owner[k].1, owner[k].2)] + rest.1)
        } else {
            retire_owner(done.drop_first(), owner)
        }
    }
}

/// How many of `credits` go to stream `t`.
spec fn stream_credits(credits: Seq<(usize, usize)>, t: int) -> nat
    decreases credits.len(),
{
    if credits.len() == 0 {
        0
    } else {
        stream_credits(credits.drop_last(), t) + if credits.last().0 == t {
            1nat
        } else {
            0nat
        }
    }
}

/// How many of `credits` go to lane `l` of stream `t`.
spec fn lane_credits(credits: Seq<(usize, usize)>, t: int, l: int) -> nat
    decreases credits.len(),
{
    if credits.len() == 0 {
        0
    } else {
        lane_credits(credits.drop_last(), t, l) + if credits.last().0 == t && credits.last().1 == l {
            1nat
        } else {
            0nat
        }
    }
}

/// `p1` is `p0` after the credits `credits` of stream `t`: its lane
/// requests in flight drop by the lane's credits and its completed count
/// grows by the stream's, saturating; the rest is unchanged.
spec fn credited(p0: ActivePatternState, p1: ActivePatternState, credits: Seq<(usize, usize)>, t: int) -> bool {
    &&& p1.run == p0.run
    &&& p1.start_cycle == p0.start_cycle
    &&& p1.req_idx@ == p0.req_idx@
    &&& p1.next_issue_at@ == p0.next_issue_at@
    &&& p1.inflight@.len() == p0.inflight@.len()
    &&& forall|l: int|
        0 <= l < p0.inflight@.len() ==> #[trigger] p1.inflight@[l] == if p0.inflight@[l] >= lane_credits(
            credits,
            t,
            l,
        ) {
            (p0.inflight@[l] - lane_credits(credits, t, l)) as int
        } else {
            0
        }
    &&& p1.completed_lane_reqs == if p0.completed_lane_reqs + stream_credits(credits, t) > usize::MAX {
        usize::MAX as int
    } else {
        p0.completed_lane_reqs + stream_credits(credits, t)
    }
}

/// Every pattern of `a1` is that of `a0` after `credits`.
spec fn all_credited(a0: Seq<Option<ActivePatternState>>, a1: Seq<Option<ActivePatternState>>, credits: Seq<
    (usize, usize),
>) -> bool {
    &&& a1.len() == a0.len()
    &&& forall|t: int|
        0 <= t < a0.len() ==> match (a0[t], #[trigger] a1[t]) {
            (None, None) => true,
            (Some(p0), Some(p1)) => credited(p0, p1, credits, t),
            _ => false,
        }
}

proof fn lemma_credits_push(credits: Seq<(usize, usize)>, x: (usize, usize), t: int, l: int)
    ensures
        stream_credits(credits.push(x), t) == stream_credits(credits, t) + if x.0 == t {
            1nat
        } else {
            0nat
        },
        lane_credits(credits.push(x), t, l) == lane_credits(credits, t, l) + if x.0 == t && x.1 == l {
            1nat
        } else {
            0nat
        },
{
    assert(credits.push(x).drop_last() =~= credits);
}

/// Credit the completions of the previous cycle to the lanes that issued
/// them.
fn retire_completions(
    deferred: &mut Vec<SmemCompletion>,
    owner: &mut Vec<(u64, usize, usize)>,
    active: &mut Vec<Option<ActivePatternState>>,
)
    ensures
        same_runs(old(active)@, final(active)@),
        final(deferred)@.len() == 0,
        final(owner)@ == retire_owner(old(deferred)@, old(owner)@).0,
        all_credited(old(active)@, final(active)@, retire_owner(old(deferred)@, old(owner)@).1),
{
    let ghost whole = retire_owner(deferred@, owner@);
    let ghost mut done: Seq<(usize, usize)> = Seq::empty();
    proof {
        assert forall|t: int| 0 <= t < active@.len() implies match (old(active)@[t], #[trigger] active@[t]) {
            (None, None) => true,
            (Some(p0), Some(p1)) => credited(p0, p1, done, t),
            _ => false,
        } by {
            if let Some(p0) = old(active)@[t] {
                assert(active@[t] == Some(p0));
                assert forall|l: int| 0 <= l < p0.inflight@.len() implies #[trigger] p0.inflight@[l] == if p0.inflight@[l]
                    >= lane_credits(done, t, l) {
                    (p0.inflight@[l] - lane_credits(done, t, l)) as int
                } else {
                    0
                } by {}
            }
        }
    }
    while deferred.len() > 0
        invariant
            same_runs(old(active)@, active@),
            retire_owner(deferred@, owner@).0 == whole.0,
            whole.1 == done + retire_owner(deferred@, owner@).1,
            whole == retire_owner(old(deferred)@, old(owner)@),
            all_credited(old(active)@, active@, done),
        decreases deferred@.len(),
    {
        let ghost d0 = deferred@;
        let ghost o0 = owner@;
        let completion = deferred.remove(0);
        proof {
            assert(deferred@ == d0.drop_first());
        }
        let mut k: usize = 0;
        let n = owner.len();
        while k < n
            invariant_except_break
                k <= n,
            invariant
                n == owner@.len(),
                owner@ == o0,
                forall|j: int| 0 <= j < k ==> (#[trigger] o0[j]).0 != completion.request.id,
            ensures
                k <= n,
                k < n ==> o0[k as int].0 == completion.request.id,
            decreases n - k,
        {
            if owner[k].0 == completion.request.id {
                break;
            }
            k = k + 1;
        }
        proof {
            let id = completion.request.id;
            if k < n {
                assert(first_owner(o0, id, k as int));
                let c = choose|c: int| first_owner(o0, id, c);
                assert(first_owner(o0, id, c));
                if c < k {
                    assert(o0[c].0 != id);
                }
                if k < c {
                    assert(o0[k as int].0 != id);
                }
                assert(owner_index(o0, id) == k);
            } else {
                assert forall|c: int| !first_owner(o0, id, c) by {
                    if 0 <= c < o0.len() {
                        assert(o0[c].0 != id);
                    }
                }
                assert(owner_index(o0, id) == o0.len());
            }
        }
        if k < n {
            let ghost entry = o0[k as int];
            let (_, stream, lane) = owner.remove(k);
            let ghost done0 = done;
            proof {
                done = done.push((stream, lane));
                assert(seq![(stream, lane)] + retire_owner(deferred@, owner@).1 == retire_owner(d0, o0).1);
                assert(whole.1 =~= done + retire_owner(deferred@, owner@).1);
            }
            if stream < active.len() {
                let ghost a0 = active@;
                let slot = active.remove(stream);
                let slot = match slot {
                    Some(mut pattern) => {
                        if lane < pattern.inflight.len() {
                            let v = pattern.inflight[lane].saturating_sub(1);
                            pattern.inflight.set(lane, v);
                        }
                        pattern.completed_lane_reqs = pattern.completed_lane_reqs.saturating_add(1);
                        Some(pattern)
                    },
                    None => None,
                };
                active.insert(stream, slot);
                proof {
                    assert forall|t: int| 0 <= t < a0.len() && t != stream implies #[trigger] active@[t]
                        == a0[t] by {
                        if t > stream {
                            assert(active@[t] == a0.remove(stream as int)[t - 1]);
                        }
                    }
                    assert forall|t: int| 0 <= t < old(active)@.len() implies match (old(active)@[t], #[trigger] active@[t]) {
                        (None, None) => true,
                        (Some(p0), Some(p1)) => credited(p0, p1, done, t),
                        _ => false,
                    } by {
                        assert(match (old(active)@[t], a0[t]) {
                            (None, None) => true,
                            (Some(p0), Some(p1)) => credited(p0, p1, done0, t),
                            _ => false,
                        });
                        if let (Some(p0), Some(pm)) = (old(active)@[t], a0[t]) {
                            let p1 = active@[t].unwrap();
                            assert forall|l: int| 0 <= l < p0.inflight@.len() implies #[trigger] p1.inflight@[l] == if p0.inflight@[l]
                                >= lane_credits(done, t, l) {
                                (p0.inflight@[l] - lane_credits(done, t, l)) as int
                            } else {
                                0
                            } by {
                                lemma_credits_push(done0, (stream, lane), t, l);
                                assert(pm.inflight@[l] == if p0.inflight@[l] >= lane_credits(done0, t, l) {
                                    (p0.inflight@[l] - lane_credits(done0, t, l)) as int
                                } else {
                                    0
                                });
                            }
                            lemma_credits_push(done0, (stream, lane), t, 0);
                        }
                    }
                }
            } else {
                proof {
                    assert forall|t: int| 0 <= t < old(active)@.len() implies match (old(active)@[t], #[trigger] active@[t]) {
                        (None, None) => true,
                        (Some(p0), Some(p1)) => credited(p0, p1, done, t),
                        _ => false,
                    } by {
                        assert(match (old(active)@[t], active@[t]) {
                            (None, None) => true,
                            (Some(p0), Some(p1)) => credited(p0, p1, done0, t),
                            _ => false,
                        });
                        if let (Some(p0), Some(p1)) = (old(active)@[t], active@[t]) {
                            assert forall|l: int| 0 <= l < p0.inflight@.len() implies #[trigger] p1.inflight@[l] == if p0.inflight@[l]
                                >= lane_credits(done, t, l) {
                                (p0.inflight@[l] - lane_credits(done, t, l)) as int
                            } else {
                                0
                            } by {
                                lemma_credits_push(done0, (stream, lane), t, l);
                                assert(p1.inflight@[l] == if p0.inflight@[l] >= lane_credits(done0, t, l) {
                                    (p0.inflight@[l] - lane_credits(done0, t, l)) as int
                                } else {
                                    0
                                });
                            }
                            lemma_credits_push(done0, (stream, lane), t, 0);
                        }
                    }
                }
            }
        }
    }
}

/// `a` sorts no later than `b`: by finish cycle, then stream, then pattern.
pub open spec fn result_le(a: SmemPatternResult, b: SmemPatternResult) -> bool {
    ||| a.finished_cycle < b.finished_cycle
    ||| a.finished_cycle == b.finished_cycle && a.stream_id < b.stream_id
    ||| a.finished_cycle == b.finished_cycle && a.stream_id == b.stream_id && a.pattern_idx <= b.pattern_idx
}

fn result_le_exec(a: &SmemPatternResult, b: &SmemPatternResult) -> (r: bool)
    ensures
        r == result_le(*a, *b),
{
    a.finished_cycle < b.finished_cycle || (a.finished_cycle == b.finished_cycle && a.stream_id
        < b.stream_id) || (a.finished_cycle == b.finished_cycle && a.stream_id == b.stream_id
        && a.pattern_idx <= b.pattern_idx)
}

/// Stable sort by finish cycle, stream and pattern.
fn sort_results(results: Vec<SmemPatternResult>) -> (r: Vec<SmemPatternResult>)
    ensures
        r@.len() == results@.len(),
        r@.to_multiset() == results@.to_multiset(),
        forall|i: int, j: int| 0 <= i < j < r@.len() ==> result_le(#[trigger] r@[i], #[trigger] r@[j]),
{
    broadcast use vstd::seq_lib::group_to_multiset_ensures;
    let mut input = results;
    let ghost total = input@.len();
    let ghost all = input@.to_multiset();
    let mut sorted: Vec<SmemPatternResult> = Vec::new();
    proof {
        assert(sorted@.to_multiset() =~= vstd::multiset::Multiset::empty());
    }
    while input.len() > 0
        invariant
            sorted@.len() + input@.len() == total,
            sorted@.to_multiset().add(input@.to_multiset()) == all,
            forall|i: int, j: int|
                0 <= i < j < sorted@.len() ==> result_le(#[trigger] sorted@[i], #[trigger] sorted@[j]),
        decreases input@.len(),
    {
        let ghost input_before = input@;
        let item = input.remove(0);
        proof {
            vstd::seq_lib::to_multiset_remove(input_before, 0);
            assert(input@ == input_before.remove(0));
        }
        let n = sorted.len();
        let mut pos: usize = 0;
        while pos < n
            invariant
                n == sorted@.len(),
                pos <= n,
                forall|k: int| 0 <= k < pos ==> result_le(#[trigger] sorted@[k], item),
            ensures
                pos <= n,
                forall|k: int| 0 <= k < pos ==> result_le(#[trigger] sorted@[k], item),
                pos < n ==> !result_le(sorted@[pos as int], item),
            decreases n - pos,
        {
            if !result_le_exec(&sorted[pos], &item) {
                break;
            }
            pos = pos + 1;
        }
        let ghost before = sorted@;
        proof {
            if pos < n {
                assert(!result_le(before[pos as int], item));
            }
        }
        sorted.insert(pos, item);
        proof {
            vstd::seq_lib::to_multiset_insert(before, pos as int, item);
            assert(sorted@ == before.insert(pos as int, item));
            assert(input_before.to_multiset().count(item) > 0) by {
                assert(input_before[0] == item);
                assert(input_before.contains(item));
                vstd::seq_lib::to_multiset_contains(input_before, item);
            }
            assert(sorted@.to_multiset().add(input@.to_multiset()) =~= all);
            assert forall|i: int, j: int| 0 <= i < j < sorted@.len() implies result_le(
                #[trigger] sorted@[i],
                #[trigger] sorted@[j],
            ) by {
                if j < pos {
                    assert(sorted@[i] == before[i] && sorted@[j] == before[j]);
                } else if j == pos {
                    assert(sorted@[i] == before[i]);
                } else if i == pos {
                    assert(sorted@[j] == before[j - 1]);
                    assert(result_le(before[pos as int], before[j - 1]) || j - 1 == pos);
                } else if i < pos {
                    assert(sorted@[i] == before[i] && sorted@[j] == before[j - 1]);
                } else {
                    assert(sorted@[i] == before[i - 1] && sorted@[j] == before[j - 1]);
                }
            }
        }
    }
    sorted
}

impl SmemSubgraph {
    /// Replay one pattern (`addrs[row][lane]`) on a fresh copy of this
    /// pipeline and return the cycles it took; an empty pattern takes none.
    pub fn simulate_pattern_timed(
        &self,
        addrs: &Vec<Vec<u64>>,
        is_read: bool,
        req_bytes: u32,
        max_inflight_per_lane: usize,
        issue_gap: u64,
    ) -> (r: u64)
        requires
            self.wf(),
        ensures
            addrs@.len() == 0 || addrs@[0]@.len() == 0 ==> r == 0,
    {
        if addrs.len() == 0 || addrs[0].len() == 0 {
            return 0;
        }
        let mut rows: Vec<Vec<u64>> = Vec::new();
        let mut i: usize = 0;
        while i < addrs.len()
            invariant
                i <= addrs@.len(),
            decreases addrs@.len() - i,
        {
            let mut row: Vec<u64> = Vec::new();
            let mut j: usize = 0;
            while j < addrs[i].len()
                invariant
                    i < addrs@.len(),
                    j <= addrs@[i as int]@.len(),
                decreases addrs@[i as int]@.len() - j,
            {
                row.push(addrs[i][j]);
                j = j + 1;
            }
            rows.push(row);
            i = i + 1;
        }
        let run = SmemPatternRun {
            stream_id: 0,
            pattern_idx: 0,
            suite: "traffic_frontend".to_owned(),
            pattern_name: "pattern".to_owned(),
            addrs: rows,
            is_read,
            req_bytes,
            active_lanes: addrs[0].len(),
            max_inflight_per_lane,
            issue_gap,
            working_set_bytes: self.config_copy().smem_size,
        };
        let mut stream: Vec<SmemPatternRun> = Vec::new();
        stream.push(run);
        let mut streams: Vec<Vec<SmemPatternRun>> = Vec::new();
        streams.push(stream);
        let results = self.simulate_patterns_timed(streams);
        if results.len() > 0 {
            results[0].duration_cycles
        } else {
            0
        }
    }

    /// Replay several streams of patterns, each stream running its patterns
    /// one after the other, on a fresh copy of this pipeline. A lane issues
    /// its next row when it has fewer requests in flight than allowed and
    /// its issue gap has passed; completions free their lane one cycle
    /// later. A pattern finishes once every lane request completed. Each
    /// result reports on one of the given runs, no stream and pattern more
    /// often than runs are listed under them, and finishes within the
    /// replay's cycle budget; the results come sorted by finish cycle,
    /// stream and pattern; streams without patterns give none.
    pub fn simulate_patterns_timed(&self, streams: Vec<Vec<SmemPatternRun>>) -> (r: Vec<SmemPatternResult>)
        requires
            self.wf(),
        ensures
            (forall|s: int| 0 <= s < streams@.len() ==> (#[trigger] streams@[s])@.len() == 0) ==> r@.len()
                == 0,
            forall|i: int, j: int| 0 <= i < j < r@.len() ==> result_le(#[trigger] r@[i], #[trigger] r@[j]),
            forall|i: int| 0 <= i < r@.len() ==> reports_on_listed(streams@, #[trigger] r@[i]),
            forall|i: int| 0 <= i < r@.len() ==> (#[trigger] r@[i]).finished_cycle < replay_budget(streams@),
            r@.len() <= total_runs(streams@),
            result_keys(r@).subset_of(listed_keys(streams@)),
    {
        proof {
            lemma_total_runs_nonneg(streams@);
        }
        let mut any = false;
        let mut s: usize = 0;
        while s < streams.len()
            invariant
                s <= streams@.len(),
                !any ==> forall|t: int| 0 <= t < s ==> (#[trigger] streams@[t])@.len() == 0,
                any ==> exists|t: int| 0 <= t < s && (#[trigger] streams@[t])@.len() > 0,
            decreases streams@.len() - s,
        {
            if streams[s].len() > 0 {
                any = true;
            }
            s = s + 1;
        }
        if !any {
            proof {
                lemma_no_result_keys(listed_keys(streams@));
            }
            return Vec::new();
        }
        let mut lane_reqs: u64 = 0;
        let mut s: usize = 0;
        while s < streams.len()
            invariant
                s <= streams@.len(),
                lane_reqs == total_lane_reqs(streams@, s as int),
            decreases streams@.len() - s,
        {
            let mut p: usize = 0;
            while p < streams[s].len()
                invariant
                    s < streams@.len(),
                    p <= streams@[s as int]@.len(),
                    lane_reqs == lane_reqs_from(total_lane_reqs(streams@, s as int), streams@[s as int]@, p as int),
                decreases streams@[s as int]@.len() - p,
            {
                let run = &streams[s][p];
                let lanes: usize = if run.active_lanes == 0 {
                    1
                } else {
                    run.active_lanes
                };
                let reqs = sat_mul_usize(run.addrs.len(), lanes) as u64;
                proof {
                    assert(reqs == run_lane_reqs(streams@[s as int]@[p as int]));
                }
                lane_reqs = lane_reqs.saturating_add(reqs);
                p = p + 1;
            }
            s = s + 1;
        }
        let max_cycles: u64 = {
            let m = sat_mul_u64(lane_reqs, 1024).saturating_add(1_000_000);
            if m < 4096 {
                4096
            } else {
                m
            }
        };
        assert(max_cycles == replay_budget(streams@));
        let config = self.config_copy();
        let config_lanes = config.num_lanes;
        let mut graph: FlowGraph<CoreFlowPayload> = FlowGraph::new();
        let mut model = SmemSubgraph::attach(&mut graph, &config);
        let count = streams.len();
        let ghost g = streams@;
        let mut pending = streams;
        let mut active: Vec<Option<ActivePatternState>> = Vec::new();
        proof {
            lemma_no_result_keys(listed_keys(g));
        }
        while active.len() < count
            invariant
                active@.len() <= count,
                forall|t: int| 0 <= t < active@.len() ==> (#[trigger] active@[t]) is None,
                active_count(active@) == 0,
                active_keys(active@) == Multiset::<(usize, usize)>::empty(),
            decreases count - active@.len(),
        {
            let ghost a0 = active@;
            active.push(None);
            proof {
                assert(active@.drop_last() =~= a0);
                lemma_active_keys_push_none(a0);
            }
        }
        proof {
            assert forall|t: int, q: int|
                0 <= t < pending@.len() && 0 <= q < pending@[t]@.len() implies listed_run(
                g,
                #[trigger] pending@[t]@[q],
            ) by {
                assert(g[t]@[q] == pending@[t]@[q]);
            }
        }
        proof {
            assert(pending@ == g);
        }
        let mut s: usize = 0;
        while s < count
            invariant
                pending@.len() == count,
                active@.len() == count,
                s <= count,
                runs_listed(g, pending@, active@),
                forall|t: int| s <= t < count ==> (#[trigger] active@[t]) is None,
                total_runs(pending@) + active_count(active@) == total_runs(g),
                listed_keys(pending@).add(active_keys(active@)) == listed_keys(g),
            decreases count - s,
        {
            let ghost p0 = pending@;
            let ghost a0 = active@;
            activate_next_pattern(&mut pending, &mut active, s, 0, Ghost(g));
            proof {
                lemma_activation_counts(p0, a0, pending@, active@, s as int);
                lemma_activation_keys(p0, a0, pending@, active@, s as int);
                assert forall|t: int| s + 1 <= t < count implies (#[trigger] active@[t]) is None by {
                    if p0[s as int]@.len() > 0 {
                        assert(active@[t] == a0[t]);
                    }
                }
            }
            s = s + 1;
        }
        let mut owner: Vec<(u64, usize, usize)> = Vec::new();
        let mut deferred: Vec<SmemCompletion> = Vec::new();
        let mut results: Vec<SmemPatternResult> = Vec::new();
        proof {
            lemma_no_result_keys(listed_keys(pending@).add(active_keys(active@)));
        }
        let mut now: Cycle = 0;
        while now < max_cycles
            invariant
                max_cycles == replay_budget(g),
                model.wf(),
                graph.wf(),
                pending@.len() == count,
                active@.len() == count,
                runs_listed(g, pending@, active@),
                forall|i: int| 0 <= i < results@.len() ==> reports_on_listed(g, #[trigger] results@[i]),
                forall|i: int| 0 <= i < results@.len() ==> (#[trigger] results@[i]).finished_cycle < max_cycles,
                results@.len() + total_runs(pending@) + active_count(active@) == total_runs(g),
                result_keys(results@).add(listed_keys(pending@).add(active_keys(active@))) == listed_keys(g),
            decreases max_cycles - now,
        {
            graph.tick(now);
            model.collect_completions(&mut graph, now);
            // A completion seen in this cycle frees its lane only in the next.
            let ghost a_before = active@;
            retire_completions(&mut deferred, &mut owner, &mut active);
            proof {
                lemma_same_runs_listed(g, pending@, a_before, active@);
                lemma_active_count_same(a_before, active@);
                lemma_active_keys_same(a_before, active@);
            }
            let finished = now;
            let mut s: usize = 0;
            while s < count
                invariant
                    finished == now,
                    pending@.len() == count,
                    active@.len() == count,
                    s <= count,
                    runs_listed(g, pending@, active@),
                    forall|i: int| 0 <= i < results@.len() ==> reports_on_listed(g, #[trigger] results@[i]),
                    forall|i: int| 0 <= i < results@.len() ==> (#[trigger] results@[i]).finished_cycle < max_cycles,
                    now < max_cycles,
                    results@.len() + total_runs(pending@) + active_count(active@) == total_runs(g),
                    result_keys(results@).add(listed_keys(pending@).add(active_keys(active@))) == listed_keys(g),
                decreases count - s,
            {
                let done = match &active[s] {
                    Some(pattern) => pattern_finished(pattern, config_lanes),
                    None => false,
                };
                if done {
                    let ghost a0 = active@;
                    let slot = active.remove(s);
                    active.insert(s, None);
                    proof {
                        assert(active@ =~= a0.update(s as int, None));
                        lemma_active_count_update(a0, s as int, None);
                        assert forall|t: int| 0 <= t < active@.len() && (#[trigger] active@[t]) is Some implies listed_run(
                            g,
                            active@[t].unwrap().run,
                        ) by {
                            if t < s {
                                assert(active@[t] == a0[t]);
                            } else {
                                assert(active@[t] == a0.remove(s as int)[t - 1]);
                            }
                        }
                    }
                    match slot {
                        Some(pattern) => {
                            let ghost r0 = results@;
                            let ghost listed = pattern.run;
                            proof {
                                assert(a0[s as int] is Some);
                                assert(listed_run(g, listed));
                            }
                            let run = pattern.run;
                            results.push(
                                SmemPatternResult {
                                    stream_id: run.stream_id,
                                    pattern_idx: run.pattern_idx,
                                    suite: run.suite,
                                    pattern_name: run.pattern_name,
                                    finished_cycle: finished,
                                    duration_cycles: finished.saturating_sub(pattern.start_cycle),
                                    reqs_per_lane: #[verifier::truncate] (run.addrs.len() as u32),
                                    active_lanes: run.active_lanes,
                                    issue_gap: run.issue_gap,
                                    max_outstanding: run.max_inflight_per_lane,
                                    working_set_bytes: run.working_set_bytes,
                                },
                            );
                            proof {
                                assert(results@ == r0.push(results@.last()));
                                lemma_finish_keys(r0, results@.last(), listed_keys(pending@), a0, s as int, listed_keys(g));
                            }
                        },
                        None => {
                            proof {
                                assert(active@ =~= a0);
                            }
                        },
                    }
                    let ghost p1 = pending@;
                    let ghost a1 = active@;
                    activate_next_pattern(&mut pending, &mut active, s, finished, Ghost(g));
                    proof {
                        lemma_activation_counts(p1, a1, pending@, active@, s as int);
                        lemma_activation_keys(p1, a1, pending@, active@, s as int);
                    }
                }
                s = s + 1;
            }
            let mut all_done = true;
            let mut s: usize = 0;
            while s < count
                invariant
                    pending@.len() == count,
                    active@.len() == count,
                    s <= count,
                    runs_listed(g, pending@, active@),
                    forall|i: int| 0 <= i < results@.len() ==> reports_on_listed(g, #[trigger] results@[i]),
                    forall|i: int| 0 <= i < results@.len() ==> (#[trigger] results@[i]).finished_cycle < max_cycles,
                    now < max_cycles,
                    results@.len() + total_runs(pending@) + active_count(active@) == total_runs(g),
                    result_keys(results@).add(listed_keys(pending@).add(active_keys(active@))) == listed_keys(g),
                decreases count - s,
            {
                if active[s].is_some() || pending[s].len() > 0 {
                    all_done = false;
                }
                s = s + 1;
            }
            if all_done {
                break;
            }
            let mut s: usize = 0;
            while s < count
                invariant
                    model.wf(),
                    graph.wf(),
                    pending@.len() == count,
                    active@.len() == count,
                    s <= count,
                    runs_listed(g, pending@, active@),
                    forall|i: int| 0 <= i < results@.len() ==> reports_on_listed(g, #[trigger] results@[i]),
                    forall|i: int| 0 <= i < results@.len() ==> (#[trigger] results@[i]).finished_cycle < max_cycles,
                    now < max_cycles,
                    results@.len() + total_runs(pending@) + active_count(active@) == total_runs(g),
                    result_keys(results@).add(listed_keys(pending@).add(active_keys(active@))) == listed_keys(g),
                decreases count - s,
            {
                let ghost a_before = active@;
                issue_stream(&mut model, &mut graph, &config, now, s, &mut active, &mut owner);
                proof {
                    lemma_same_runs_listed(g, pending@, a_before, active@);
                    lemma_active_count_same(a_before, active@);
                    lemma_active_keys_same(a_before, active@);
                }
                s = s + 1;
            }
            loop
                invariant
                    model.wf(),
                ensures
                    model.wf(),
                decreases model.completions_spec().len(),
            {
                match model.take_completion() {
                    Some(c) => deferred.push(c),
                    None => {
                        break;
                    },
                }
            }
            now = now + 1;
        }
        proof {
            lemma_total_runs_nonneg(pending@);
            lemma_active_count_nonneg(active@);
        }
        let sorted = sort_results(results);
        proof {
            lemma_result_keys_perm(results@, sorted@);
            lemma_keys_within(result_keys(sorted@), listed_keys(pending@).add(active_keys(active@)), listed_keys(g));
        }
        proof {
            assert forall|i: int| 0 <= i < sorted@.len() implies reports_on_listed(g, #[trigger] sorted@[i]) by {
                vstd::seq_lib::to_multiset_contains(sorted@, sorted@[i]);
                vstd::seq_lib::to_multiset_contains(results@, sorted@[i]);
                assert(sorted@.contains(sorted@[i]));
                let j = choose|j: int| 0 <= j < results@.len() && results@[j] == sorted@[i];
                assert(reports_on_listed(g, results@[j]));
            }
            assert forall|i: int| 0 <= i < sorted@.len() implies (#[trigger] sorted@[i]).finished_cycle < replay_budget(g) by {
                vstd::seq_lib::to_multiset_contains(sorted@, sorted@[i]);
                vstd::seq_lib::to_multiset_contains(results@, sorted@[i]);
                assert(sorted@.contains(sorted@[i]));
                let j = choose|j: int| 0 <= j < results@.len() && results@[j] == sorted@[i];
                assert(results@[j].finished_cycle < max_cycles);
            }
        }
        sorted
    }

}

/// `x + 1`, saturating at `usize::MAX`.
spec fn sat_inc(x: usize) -> int {
    if x + 1 > usize::MAX {
        usize::MAX as int
    } else {
        x + 1
    }
}

/// Lane `l` of `p1` has the rows, requests in flight and issue cycle of
/// that of `p0`.
spec fn lane_kept(p0: ActivePatternState, p1: ActivePatternState, l: int) -> bool {
    &&& (0 <= l < p0.req_idx@.len() ==> p1.req_idx@[l] == p0.req_idx@[l])
    &&& (0 <= l < p0.inflight@.len() ==> p1.inflight@[l] == p0.inflight@[l])
    &&& (0 <= l < p0.next_issue_at@.len() ==> p1.next_issue_at@[l] == p0.next_issue_at@[l])
}

/// Lane `l` of `p1` is that of `p0` after one accepted request at `now`:
/// one more row issued, one more request in flight, and its next issue
/// `gap + 1` cycles later.
spec fn lane_booked(p0: ActivePatternState, p1: ActivePatternState, l: int, now: Cycle, gap: u64) -> bool {
    &&& (0 <= l < p0.req_idx@.len() ==> p1.req_idx@[l] == sat_inc(p0.req_idx@[l]))
    &&& (0 <= l < p0.inflight@.len() ==> p1.inflight@[l] == sat_inc(p0.inflight@[l]))
    &&& (0 <= l < p0.next_issue_at@.len() ==> p1.next_issue_at@[l] == sat_add(
        sat_add(now as int, gap as int) as int,
        1,
    ))
}

/// `p1` is `p0` after requests of some of the lanes in `cands` were
/// accepted at `now`: each lane is kept, or it is a lane of `cands` and
/// booked once.
spec fn lanes_issued(p0: ActivePatternState, p1: ActivePatternState, cands: Seq<(usize, u64)>, now: Cycle) -> bool {
    &&& p1.run == p0.run
    &&& p1.start_cycle == p0.start_cycle
    &&& p1.completed_lane_reqs == p0.completed_lane_reqs
    &&& p1.req_idx@.len() == p0.req_idx@.len()
    &&& p1.inflight@.len() == p0.inflight@.len()
    &&& p1.next_issue_at@.len() == p0.next_issue_at@.len()
    &&& forall|l: int|
        #![trigger lane_kept(p0, p1, l)]
        lane_kept(p0, p1, l) || (exists|i: int| 0 <= i < cands.len() && #[trigger] cands[i].0 == l)
            && lane_booked(p0, p1, l, now, p0.run.issue_gap)
}

/// The lanes of `issue_candidates` rise strictly and stay below `n`.
proof fn lemma_candidates_rise(pattern: ActivePatternState, now: Cycle, n: nat)
    requires
        n <= usize::MAX,
    ensures
        forall|i: int, j: int|
            0 <= i < j < issue_candidates(pattern, now, n).len() ==> #[trigger] issue_candidates(
                pattern,
                now,
                n,
            )[i].0 < #[trigger] issue_candidates(pattern, now, n)[j].0,
        forall|i: int|
            0 <= i < issue_candidates(pattern, now, n).len() ==> #[trigger] issue_candidates(
                pattern,
                now,
                n,
            )[i].0 < n,
    decreases n,
{
    if n > 0 {
        let prev = issue_candidates(pattern, now, (n - 1) as nat);
        let cur = issue_candidates(pattern, now, n);
        lemma_candidates_rise(pattern, now, (n - 1) as nat);
        assert forall|i: int| 0 <= i < cur.len() implies #[trigger] cur[i].0 < n by {
            if i < prev.len() {
                assert(cur[i] == prev[i]);
            }
        }
        assert forall|i: int, j: int| 0 <= i < j < cur.len() implies #[trigger] cur[i].0 < #[trigger] cur[j].0 by {
            assert(cur[i] == prev[i]);
            if j < prev.len() {
                assert(cur[j] == prev[j]);
            }
        }
    }
}

/// Issue, for stream `s`, one request for every lane that may issue at
/// `now`, and book the accepted ones to their lane.
fn issue_stream(
    model: &mut SmemSubgraph,
    graph: &mut FlowGraph<CoreFlowPayload>,
    config: &SmemFlowConfig,
    now: Cycle,
    s: usize,
    active: &mut Vec<Option<ActivePatternState>>,
    owner: &mut Vec<(u64, usize, usize)>,
)
    requires
        old(model).wf(),
        s < old(active)@.len(),
    ensures
        final(model).wf(),
        same_runs(old(active)@, final(active)@),
        *final(graph) == *old(graph),
        forall|t: int| 0 <= t < old(active)@.len() && t != s ==> #[trigger] final(active)@[t] == old(active)@[t],
        old(active)@[s as int] is None ==> final(active)@ == old(active)@ && final(owner)@ == old(owner)@
            && *final(model) == *old(model),
        old(active)@[s as int] matches Some(p0) ==> {
            let cands = issue_candidates(p0, now, lane_count_spec(p0.run, config.num_lanes) as nat);
            &&& final(active)@[s as int] matches Some(p1) && lanes_issued(p0, p1, cands, now)
            &&& final(model).next_id_spec() == if old(model).next_id_spec() + cands.len() > u64::MAX {
                u64::MAX as int
            } else {
                old(model).next_id_spec() + cands.len()
            }
        },
{
    let (candidates, req_bytes, is_read, issue_gap, client) = match &active[s] {
        Some(pattern) => (
            lane_issue_candidates(pattern, now, config.num_lanes),
            if pattern.run.req_bytes == 0 {
                1
            } else {
                pattern.run.req_bytes
            },
            pattern.run.is_read,
            pattern.run.issue_gap,
            classify_smem_client(pattern.run.suite.as_str()),
        ),
        None => {
            return;
        },
    };
    let ghost p0 = active@[s as int]->Some_0;
    proof {
        lemma_candidates_rise(p0, now, lane_count_spec(p0.run, config.num_lanes) as nat);
        assert forall|l: int| #![trigger lane_kept(p0, p0, l)] lane_kept(p0, p0, l) by {}
    }
    let mut k: usize = 0;
    while k < candidates.len()
        invariant
            model.wf(),
            s < active@.len(),
            same_runs(old(active)@, active@),
            *graph == *old(graph),
            k <= candidates@.len(),
            old(active)@[s as int] == Some(p0),
            issue_gap == p0.run.issue_gap,
            candidates@ == issue_candidates(p0, now, lane_count_spec(p0.run, config.num_lanes) as nat),
            forall|i: int, j: int|
                0 <= i < j < candidates@.len() ==> #[trigger] candidates@[i].0 < #[trigger] candidates@[j].0,
            forall|t: int| 0 <= t < old(active)@.len() && t != s ==> #[trigger] active@[t] == old(active)@[t],
            active@[s as int] matches Some(p1) && p1.run == p0.run && p1.start_cycle == p0.start_cycle
                && p1.completed_lane_reqs == p0.completed_lane_reqs && p1.req_idx@.len() == p0.req_idx@.len()
                && p1.inflight@.len() == p0.inflight@.len() && p1.next_issue_at@.len() == p0.next_issue_at@.len()
                && forall|l: int|
                #![trigger lane_kept(p0, p1, l)]
                lane_kept(p0, p1, l) || (exists|i: int| 0 <= i < k && #[trigger] candidates@[i].0 == l)
                    && lane_booked(p0, p1, l, now, p0.run.issue_gap),
            model.next_id_spec() == if old(model).next_id_spec() + k > u64::MAX {
                u64::MAX as int
            } else {
                old(model).next_id_spec() + k
            },
        decreases candidates@.len() - k,
    {
        let (lane, addr) = candidates[k];
        let (bank, subbank) = config.decode_addr(addr);
        let mut request = SmemRequest::new(s, req_bytes, 1, !is_read, bank);
        request.addr = addr;
        request.subbank = subbank;
        request.client = client;
        request.lane_addrs = Some(vec![addr]);
        request.lane_ids = Some(vec![lane]);
        match model.issue(graph, now, request) {
            Ok(issue) => {
                let mut q: usize = 0;
                let n = owner.len();
                while q < n
                    invariant
                        n == owner@.len(),
                        q <= n,
                    decreases n - q,
                {
                    if owner[q].0 == issue.request_id {
                        break;
                    }
                    q = q + 1;
                }
                if q < n {
                    owner.set(q, (issue.request_id, s, lane));
                } else {
                    owner.push((issue.request_id, s, lane));
                }
                let ghost a0 = active@;
                let ghost pc = a0[s as int]->Some_0;
                let slot = active.remove(s);
                let slot = match slot {
                    Some(mut pattern) => {
                        if lane < pattern.req_idx.len() {
                            let v = pattern.req_idx[lane].saturating_add(1);
                            pattern.req_idx.set(lane, v);
                        }
                        if lane < pattern.inflight.len() {
                            let v = pattern.inflight[lane].saturating_add(1);
                            pattern.inflight.set(lane, v);
                        }
                        if lane < pattern.next_issue_at.len() {
                            pattern.next_issue_at.set(lane, now.saturating_add(issue_gap).saturating_add(1));
                        }
                        Some(pattern)
                    },
                    None => None,
                };
                active.insert(s, slot);
                proof {
                    assert forall|t: int| 0 <= t < a0.len() && t != s implies #[trigger] active@[t] == a0[t] by {
                        if t > s {
                            assert(active@[t] == a0.remove(s as int)[t - 1]);
                        }
                    }
                    let p1 = active@[s as int]->Some_0;
                    assert(candidates@[k as int].0 == lane);
                    assert(lane_kept(p0, pc, lane as int)) by {
                        if !lane_kept(p0, pc, lane as int) {
                            let i = choose|i: int| 0 <= i < k && #[trigger] candidates@[i].0 == lane;
                            assert(candidates@[i].0 < candidates@[k as int].0);
                        }
                    }
                    assert forall|l: int|
                        #![trigger lane_kept(p0, p1, l)]
                        lane_kept(p0, p1, l) || (exists|i: int| 0 <= i < k + 1 && #[trigger] candidates@[i].0 == l)
                            && lane_booked(p0, p1, l, now, p0.run.issue_gap) by {
                        if l == lane {
                            assert(candidates@[k as int].0 == l);
                            assert(lane_booked(p0, p1, l, now, p0.run.issue_gap));
                        } else {
                            if lane_kept(p0, pc, l) {
                                assert(lane_kept(p0, p1, l));
                            } else {
                                assert(lane_booked(p0, p1, l, now, p0.run.issue_gap));
                            }
                        }
                    }
                }
            },
            Err(_) => {
                proof {
                    let p1 = active@[s as int]->Some_0;
                    assert forall|l: int|
                        #![trigger lane_kept(p0, p1, l)]
                        lane_kept(p0, p1, l) || (exists|i: int| 0 <= i < k + 1 && #[trigger] candidates@[i].0 == l)
                            && lane_booked(p0, p1, l, now, p0.run.issue_gap) by {
                        if !lane_kept(p0, p1, l) {
                            let i = choose|i: int| 0 <= i < k && #[trigger] candidates@[i].0 == l;
                            assert(0 <= i < k + 1 && candidates@[i].0 == l);
                        }
                    }
                }
            },
        }
        k = k + 1;
    }
}

} // verus!
