//! Per-lane word operations: how a shared-memory request splits into lane
//! operations, how ready operations coalesce, and how many operations of
//! each request one (possibly coalesced) operation completes.

use crate::timeflow::gmem::request::opt_view;
use crate::timeflow::smem::arbiter::{align_down, align_down_spec, align_up, align_up_spec, lemma_align};
use crate::timeflow::smem::{at_least_one, SmemClientKind, SmemFlowConfig, SmemRequest};
use crate::timeq::sat_add;
use vstd::prelude::*;

verus! {

/// One word access of one lane, possibly standing for several coalesced
/// accesses of different requests.
#[derive(Debug)]
pub struct LaneOp {
    pub request_id: u64,
    /// Requests served by this operation, one entry per merged access.
    pub request_ids: Vec<u64>,
    pub lane: usize,
    pub addr: u64,
    pub bytes: u32,
    pub coalesced_ops: usize,
    pub bank: usize,
    pub subbank: usize,
    pub is_store: bool,
    pub client: SmemClientKind,
}

/// `x` clamped below at 1, as a `usize`.
pub open spec fn one_or(x: usize) -> usize {
    if x == 0 {
        1
    } else {
        x
    }
}

/// `a + b`, saturating at `usize::MAX`.
pub open spec fn sat_add_usize(a: int, b: int) -> usize {
    if a + b > usize::MAX {
        usize::MAX
    } else {
        (a + b) as usize
    }
}

/// Number of times `x` occurs in `s`.
pub open spec fn occurrences(s: Seq<u64>, x: u64) -> nat
    decreases s.len(),
{
    if s.len() == 0 {
        0
    } else {
        occurrences(s.drop_last(), x) + if s.last() == x {
            1nat
        } else {
            0nat
        }
    }
}

pub proof fn lemma_occurrences_bounded(s: Seq<u64>, x: u64)
    ensures
        occurrences(s, x) <= s.len(),
        occurrences(s, x) > 0 <==> s.contains(x),
    decreases s.len(),
{
    if s.len() > 0 {
        lemma_occurrences_bounded(s.drop_last(), x);
        if s.drop_last().contains(x) {
            let k = choose|k: int| 0 <= k < s.drop_last().len() && s.drop_last()[k] == x;
            assert(s[k] == x);
        }
        if s.contains(x) && s.last() != x {
            let k = choose|k: int| 0 <= k < s.len() && s[k] == x;
            assert(k < s.len() - 1);
            assert(s.drop_last()[k] == x);
        }
    }
}

/// `r` lists, once each, every request that `op` serves with the number of
/// its accesses that `op` completes.
pub open spec fn completion_counts(op: LaneOp, r: Seq<(u64, usize)>) -> bool {
    let ids = op.request_ids@;
    if ids.len() == 0 {
        r == seq![(op.request_id, one_or(op.coalesced_ops))]
    } else {
        &&& forall|i: int, j: int| 0 <= i < j < r.len() ==> r[i].0 != r[j].0
        &&& forall|i: int| 0 <= i < r.len() ==> ids.contains(#[trigger] r[i].0)
        &&& forall|i: int| 0 <= i < r.len() ==> #[trigger] r[i].1 == occurrences(ids, r[i].0)
        &&& forall|k: int| 0 <= k < ids.len() ==> #[trigger] listed(r, ids[k])
    }
}

/// Some entry of `r` is for request `x`.
pub open spec fn listed(r: Seq<(u64, usize)>, x: u64) -> bool {
    exists|i: int| 0 <= i < r.len() && r[i].0 == x
}

impl LaneOp {
    /// `self` and `other` hold the same values.
    pub open spec fn same_as(&self, other: &LaneOp) -> bool {
        &&& self.request_id == other.request_id
        &&& self.request_ids@ == other.request_ids@
        &&& self.lane == other.lane
        &&& self.addr == other.addr
        &&& self.bytes == other.bytes
        &&& self.coalesced_ops == other.coalesced_ops
        &&& self.bank == other.bank
        &&& self.subbank == other.subbank
        &&& self.is_store == other.is_store
        &&& self.client == other.client
    }

    pub fn duplicate(&self) -> (r: Self)
        ensures
            r.same_as(self),
    {
        let mut ids: Vec<u64> = Vec::new();
        let mut i: usize = 0;
        while i < self.request_ids.len()
            invariant
                i <= self.request_ids@.len(),
                ids@ == self.request_ids@.take(i as int),
            decreases self.request_ids@.len() - i,
        {
            ids.push(self.request_ids[i]);
            i = i + 1;
            proof {
                assert(ids@ =~= self.request_ids@.take(i as int));
            }
        }
        assert(ids@ =~= self.request_ids@);
        LaneOp {
            request_id: self.request_id,
            request_ids: ids,
            lane: self.lane,
            addr: self.addr,
            bytes: self.bytes,
            coalesced_ops: self.coalesced_ops,
            bank: self.bank,
            subbank: self.subbank,
            is_store: self.is_store,
            client: self.client,
        }
    }

    /// For every request this operation serves, the number of its accesses
    /// that the operation completes, in order of first appearance. An
    /// operation without a list of requests completes `coalesced_ops`
    /// (at least one) accesses of `request_id`.
    pub fn request_completion_counts(&self) -> (r: Vec<(u64, usize)>)
        ensures
            completion_counts(*self, r@),
    {
        let mut counts: Vec<(u64, usize)> = Vec::new();
        if self.request_ids.len() == 0 {
            let n = if self.coalesced_ops == 0 {
                1
            } else {
                self.coalesced_ops
            };
            counts.push((self.request_id, n));
            assert(counts@ =~= seq![(self.request_id, one_or(self.coalesced_ops))]);
            return counts;
        }
        let ghost ids = self.request_ids@;
        let mut k: usize = 0;
        while k < self.request_ids.len()
            invariant
                ids == self.request_ids@,
                k <= ids.len(),
                forall|i: int, j: int| 0 <= i < j < counts@.len() ==> counts@[i].0 != counts@[j].0,
                forall|i: int| 0 <= i < counts@.len() ==> ids.take(k as int).contains(#[trigger] counts@[i].0),
                forall|i: int|
                    0 <= i < counts@.len() ==> #[trigger] counts@[i].1 == occurrences(
                        ids.take(k as int),
                        counts@[i].0,
                    ),
                forall|m: int| 0 <= m < k ==> #[trigger] listed(counts@, ids[m]),
            decreases ids.len() - k,
        {
            let id = self.request_ids[k];
            let ghost pre = ids.take(k as int);
            let ghost post = ids.take(k + 1);
            proof {
                assert(post.drop_last() =~= pre);
                assert(post.last() == id);
                assert forall|y: u64| #[trigger] occurrences(post, y) == occurrences(pre, y) + if y == id {
                    1nat
                } else {
                    0nat
                } by {}
                lemma_occurrences_bounded(pre, id);
                assert forall|y: u64| pre.contains(y) implies post.contains(y) by {
                    let q = choose|q: int| 0 <= q < pre.len() && pre[q] == y;
                    assert(post[q] == y);
                }
                assert(post.contains(id)) by {
                    assert(post[k as int] == id);
                }
            }
            let mut j: usize = 0;
            let mut found = false;
            while j < counts.len()
                invariant_except_break
                    !found,
                invariant
                    j <= counts@.len(),
                    forall|i: int| 0 <= i < j ==> counts@[i].0 != id,
                ensures
                    found ==> j < counts@.len() && counts@[j as int].0 == id,
                    !found ==> forall|i: int| 0 <= i < counts@.len() ==> counts@[i].0 != id,
                decreases counts@.len() - j,
            {
                if counts[j].0 == id {
                    found = true;
                    break;
                }
                j = j + 1;
            }
            let ghost before = counts@;
            if found {
                let c = counts[j].1;
                proof {
                    lemma_occurrences_bounded(pre, id);
                }
                counts.set(j, (id, c + 1));
                proof {
                    assert forall|i: int| 0 <= i < counts@.len() implies #[trigger] counts@[i].1
                        == occurrences(post, counts@[i].0) by {
                        if i != j {
                            assert(counts@[i] == before[i]);
                        }
                    }
                    assert forall|m: int| 0 <= m < k + 1 implies #[trigger] listed(counts@, ids[m]) by {
                        if m < k {
                            assert(listed(before, ids[m]));
                            let i0 = choose|i: int| 0 <= i < before.len() && before[i].0 == ids[m];
                            assert(counts@[i0].0 == ids[m]);
                        } else {
                            assert(counts@[j as int].0 == ids[m]);
                        }
                    }
                }
            } else {
                proof {
                    lemma_occurrences_bounded(pre, id);
                    assert(!pre.contains(id)) by {
                        if pre.contains(id) {
                            let m = choose|m: int| 0 <= m < pre.len() && pre[m] == id;
                            assert(listed(before, ids[m]));
                        }
                    }
                }
                counts.push((id, 1));
                proof {
                    assert forall|i: int| 0 <= i < counts@.len() implies #[trigger] counts@[i].1
                        == occurrences(post, counts@[i].0) by {
                        if i < before.len() {
                            assert(counts@[i] == before[i]);
                        }
                    }
                    assert forall|m: int| 0 <= m < k + 1 implies #[trigger] listed(counts@, ids[m]) by {
                        if m < k {
                            assert(listed(before, ids[m]));
                            let i0 = choose|i: int| 0 <= i < before.len() && before[i].0 == ids[m];
                            assert(counts@[i0].0 == ids[m]);
                        } else {
                            assert(counts@[before.len() as int].0 == ids[m]);
                        }
                    }
                }
            }
            k = k + 1;
        }
        assert(ids.take(k as int) =~= ids);
        counts
    }
}

/// The explicit lane addresses of a request (empty when it has none).
pub open spec fn explicit_addrs(request: SmemRequest) -> Seq<u64> {
    match opt_view(request.lane_addrs) {
        Some(a) => a,
        None => Seq::empty(),
    }
}

/// Lane that serves explicit address `i`: the listed lane id, else `i`.
pub open spec fn listed_lane(request: SmemRequest, i: int) -> int {
    match opt_view(request.lane_ids) {
        Some(ids) => if i < ids.len() {
            ids[i] as int
        } else {
            i
        },
        None => i,
    }
}

/// Highest lane index of the configuration.
pub open spec fn last_lane(config: SmemFlowConfig) -> int {
    at_least_one(config.num_lanes as int) - 1
}

pub open spec fn min_int(a: int, b: int) -> int {
    if a <= b {
        a
    } else {
        b
    }
}

/// Lanes a request occupies: as many as it lists addresses, else its
/// active-lane count with 0 meaning all; never more than configured.
pub open spec fn active_lane_count_spec(config: SmemFlowConfig, request: SmemRequest) -> int {
    let max = at_least_one(config.num_lanes as int);
    let a = explicit_addrs(request);
    if a.len() > 0 {
        min_int(a.len() as int, max)
    } else if request.active_lanes == 0 {
        max
    } else {
        min_int(request.active_lanes as int, max)
    }
}

/// (lane, address) of every lane the request occupies.
pub open spec fn lane_targets_spec(config: SmemFlowConfig, request: SmemRequest) -> Seq<(usize, u64)> {
    let n = active_lane_count_spec(config, request);
    let a = explicit_addrs(request);
    if a.len() > 0 {
        Seq::new(
            n as nat,
            |i: int| (min_int(listed_lane(request, i), last_lane(config)) as usize, a[i]),
        )
    } else {
        Seq::new(n as nat, |i: int| (i as usize, request.addr))
    }
}

/// Word addresses from `addr` up to (not including) `end`, `step` apart.
pub open spec fn split_words(addr: u64, end: u64, step: u64) -> Seq<u64>
    decreases u64::MAX - addr,
{
    if addr < end && step >= 1 {
        proof {
            assert(sat_add(addr as int, step as int) > addr);
        }
        seq![addr] + split_words(sat_add(addr as int, step as int), end, step)
    } else {
        Seq::empty()
    }
}

/// Word size of the configuration (at least one byte).
pub open spec fn word_of(config: SmemFlowConfig) -> u32 {
    at_least_one(config.word_bytes as int) as u32
}

/// Bytes each lane of the request accesses (at least one).
pub open spec fn bytes_per_lane_spec(config: SmemFlowConfig, request: SmemRequest) -> u32 {
    let n = lane_targets_spec(config, request).len();
    at_least_one((request.bytes as int) / (n as int)) as u32
}

/// A single explicit lane wider than a word is split into word accesses.
pub open spec fn splits_wide_lane(config: SmemFlowConfig, request: SmemRequest) -> bool {
    explicit_addrs(request).len() == 1 && bytes_per_lane_spec(config, request) > word_of(config)
}

/// (lane, word address, bytes) of every operation a request turns into:
/// one aligned word access per lane, or, for a single wide lane, one access
/// per word it covers on consecutive lanes (clamped to the last lane).
pub open spec fn lane_plan_spec(config: SmemFlowConfig, request: SmemRequest) -> Seq<(usize, u64, u32)> {
    let t = lane_targets_spec(config, request);
    let w = word_of(config);
    let bpl = bytes_per_lane_spec(config, request);
    if !splits_wide_lane(config, request) {
        Seq::new(
            t.len(),
            |i: int|
                (
                    t[i].0,
                    align_down_spec(t[i].1, w as u64),
                    if bpl >= w {
                        bpl
                    } else {
                        w
                    },
                ),
        )
    } else {
        let start = align_down_spec(t[0].1, w as u64);
        let end = align_up_spec(sat_add(t[0].1 as int, bpl as int), w as u64);
        let words = split_words(start, end, w as u64);
        Seq::new(
            words.len(),
            |j: int| (min_int(t[0].0 + j, last_lane(config)) as usize, words[j], w),
        )
    }
}

/// The words from an aligned `addr` are aligned, start at `addr`, follow
/// each other `step` apart and stay below `end`.
proof fn lemma_split_words(addr: u64, end: u64, step: u64)
    requires
        step >= 1,
        addr % step == 0,
    ensures
        ({
            let ws = split_words(addr, end, step);
            &&& ws.len() > 0 ==> ws[0] == addr
            &&& forall|j: int| 0 <= j < ws.len() ==> (#[trigger] ws[j]) % step == 0 && ws[j] < end && ws[j] >= addr
            &&& forall|j: int| 0 <= j < ws.len() - 1 ==> #[trigger] ws[j + 1] == ws[j] + step
        }),
    decreases u64::MAX - addr,
{
    if addr < end {
        let next = sat_add(addr as int, step as int);
        assert(next > addr);
        let rest = split_words(next, end, step);
        let ws = split_words(addr, end, step);
        assert(ws == seq![addr] + rest);
        if next < end {
            assert(next == addr + step);
            vstd::arithmetic::div_mod::lemma_mod_adds(addr as int, step as int, step as int);
            vstd::arithmetic::div_mod::lemma_mod_self_0(step as int);
            lemma_split_words(next, end, step);
        } else {
            assert(rest.len() == 0);
        }
        assert forall|j: int| 0 <= j < ws.len() implies (#[trigger] ws[j]) % step == 0 && ws[j] < end && ws[j] >= addr by {
            if j > 0 {
                assert(ws[j] == rest[j - 1]);
            }
        }
        assert forall|j: int| 0 <= j < ws.len() - 1 implies #[trigger] ws[j + 1] == ws[j] + step by {
            assert(ws[j + 1] == rest[j]);
            if j > 0 {
                assert(ws[j] == rest[j - 1]);
                assert(next < end);
                let k = j - 1;
                assert(rest[k + 1] == rest[k] + step);
            } else {
                assert(rest.len() > 0);
                assert(rest[0] == next);
            }
        }
    }
}

/// How a request splits into lane operations.
/// - Every operation sits on a lane that exists, at a word-aligned
///   address, and moves at least a word.
/// - A request that is not one wide lane becomes one operation per lane
///   it occupies, in order: on that lane, at the word that holds the
///   lane's address.
/// - One wide lane becomes one word-sized operation per word it covers,
///   the first at the word holding its address and each next one the next
///   word, on consecutive lanes from its own (up to the last lane).
pub proof fn lemma_lane_plan(config: SmemFlowConfig, request: SmemRequest)
    ensures
        ({
            let t = lane_targets_spec(config, request);
            let plan = lane_plan_spec(config, request);
            let w = word_of(config) as u64;
            &&& forall|i: int| 0 <= i < t.len() ==> (#[trigger] t[i]).0 as int <= last_lane(config)
            &&& forall|i: int|
                0 <= i < plan.len() ==> (#[trigger] plan[i]).0 as int <= last_lane(config) && plan[i].1 % w == 0
                    && plan[i].2 >= w
            &&& !splits_wide_lane(config, request) ==> plan.len() == t.len() && forall|i: int|
                0 <= i < plan.len() ==> (#[trigger] plan[i]).0 == t[i].0 && plan[i].1 <= t[i].1 < plan[i].1 + w
            &&& splits_wide_lane(config, request) ==> {
                &&& plan.len() > 0 ==> plan[0].1 == align_down_spec(t[0].1, w) && plan[0].0 as int == min_int(
                    t[0].0 as int,
                    last_lane(config),
                )
                &&& forall|j: int| 0 <= j < plan.len() - 1 ==> #[trigger] plan[j + 1].1 == plan[j].1 + w
                &&& forall|j: int| 0 <= j < plan.len() ==> (#[trigger] plan[j]).2 == w && plan[j].0 as int == min_int(
                    t[0].0 + j,
                    last_lane(config),
                )
            }
        }),
{
    let t = lane_targets_spec(config, request);
    let plan = lane_plan_spec(config, request);
    let w = word_of(config) as u64;
    assert(w >= 1);
    assert forall|i: int| 0 <= i < t.len() implies (#[trigger] t[i]).0 as int <= last_lane(config) by {
        if explicit_addrs(request).len() == 0 {
            assert(t[i].0 == i as usize);
        }
    }
    if !splits_wide_lane(config, request) {
        assert forall|i: int| 0 <= i < plan.len() implies (#[trigger] plan[i]).0 as int <= last_lane(config)
            && plan[i].1 % w == 0 && plan[i].2 >= w && plan[i].0 == t[i].0 && plan[i].1 <= t[i].1 < plan[i].1 + w by {
            lemma_align(t[i].1, w);
        }
    } else {
        let start = align_down_spec(t[0].1, w);
        let end = align_up_spec(sat_add(t[0].1 as int, bytes_per_lane_spec(config, request) as int), w);
        lemma_align(t[0].1, w);
        lemma_split_words(start, end, w);
        assert forall|j: int| 0 <= j < plan.len() implies (#[trigger] plan[j]).0 as int <= last_lane(config)
            && plan[j].1 % w == 0 && plan[j].2 >= w by {}
    }
}

/// `op` is the access `p` of `request`, addressed to the bank and subbank
/// that `p`'s address decodes to.
pub open spec fn op_from_plan(
    config: SmemFlowConfig,
    request: SmemRequest,
    op: LaneOp,
    p: (usize, u64, u32),
) -> bool {
    &&& op.request_id == request.id
    &&& op.request_ids@ == seq![request.id]
    &&& op.lane == p.0
    &&& op.addr == p.1
    &&& op.bytes == p.2
    &&& op.coalesced_ops == 1
    &&& (op.bank, op.subbank) == config.decode_spec(p.1)
    &&& op.is_store == request.is_store
    &&& op.client == request.client
}

pub fn active_lane_count(config: &SmemFlowConfig, request: &SmemRequest) -> (r: usize)
    ensures
        r == active_lane_count_spec(*config, *request),
        r >= 1,
{
    let max_lanes: usize = if config.num_lanes == 0 {
        1
    } else {
        config.num_lanes
    };
    if let Some(addrs) = &request.lane_addrs {
        if addrs.len() > 0 {
            return if addrs.len() < max_lanes {
                addrs.len()
            } else {
                max_lanes
            };
        }
    }
    let explicit = request.active_lanes as usize;
    if explicit == 0 {
        max_lanes
    } else if explicit < max_lanes {
        explicit
    } else {
        max_lanes
    }
}

/// (lane, address) of every lane the request occupies.
pub fn collect_lane_targets(config: &SmemFlowConfig, request: &SmemRequest) -> (r: Vec<(usize, u64)>)
    ensures
        r@ == lane_targets_spec(*config, *request),
        r@.len() >= 1,
{
    let n = active_lane_count(config, request);
    let last: usize = if config.num_lanes == 0 {
        0
    } else {
        config.num_lanes - 1
    };
    let ghost want = lane_targets_spec(*config, *request);
    let mut out: Vec<(usize, u64)> = Vec::new();
    match &request.lane_addrs {
        Some(addrs) => {
            if addrs.len() > 0 {
                let mut i: usize = 0;
                while i < n
                    invariant
                        n == active_lane_count_spec(*config, *request),
                        n <= addrs@.len(),
                        addrs@ == explicit_addrs(*request),
                        last == last_lane(*config),
                        addrs@.len() > 0,
                        want == lane_targets_spec(*config, *request),
                        i <= n,
                        out@ == want.take(i as int),
                    decreases n - i,
                {
                    let lane: usize = match &request.lane_ids {
                        Some(ids) => if i < ids.len() {
                            ids[i]
                        } else {
                            i
                        },
                        None => i,
                    };
                    let clamped = if lane < last {
                        lane
                    } else {
                        last
                    };
                    out.push((clamped, addrs[i]));
                    i = i + 1;
                    proof {
                        assert(out@ =~= want.take(i as int));
                    }
                }
                assert(out@ =~= want);
                return out;
            }
        },
        None => {},
    }
    let mut i: usize = 0;
    while i < n
        invariant
            n == active_lane_count_spec(*config, *request),
            explicit_addrs(*request).len() == 0,
            want == lane_targets_spec(*config, *request),
            i <= n,
            out@ == want.take(i as int),
        decreases n - i,
    {
        out.push((i, request.addr));
        i = i + 1;
        proof {
            assert(out@ =~= want.take(i as int));
        }
    }
    assert(out@ =~= want);
    out
}

/// The operations a request turns into, in lane order.
pub fn build_lane_ops(config: &SmemFlowConfig, request: &SmemRequest) -> (r: Vec<LaneOp>)
    requires
        config.num_lanes <= u32::MAX,
    ensures
        r@.len() == lane_plan_spec(*config, *request).len(),
        forall|i: int|
            0 <= i < r@.len() ==> #[trigger] op_from_plan(
                *config,
                *request,
                r@[i],
                lane_plan_spec(*config, *request)[i],
            ),
{
    let targets = collect_lane_targets(config, request);
    let ghost plan = lane_plan_spec(*config, *request);
    let ghost t = targets@;
    let n32 = targets.len() as u32;
    let bytes_per_lane: u32 = if request.bytes / n32 == 0 {
        1
    } else {
        request.bytes / n32
    };
    let word_bytes: u32 = if config.word_bytes == 0 {
        1
    } else {
        config.word_bytes
    };
    let last: usize = if config.num_lanes == 0 {
        0
    } else {
        config.num_lanes - 1
    };
    assert(bytes_per_lane == bytes_per_lane_spec(*config, *request));
    let split = match &request.lane_addrs {
        Some(addrs) => addrs.len() == 1 && bytes_per_lane > word_bytes,
        None => false,
    };
    assert(split == splits_wide_lane(*config, *request));
    let mut ops: Vec<LaneOp> = Vec::new();
    if !split {
        let width = if bytes_per_lane >= word_bytes {
            bytes_per_lane
        } else {
            word_bytes
        };
        let mut i: usize = 0;
        while i < targets.len()
            invariant
                t == targets@,
                plan == lane_plan_spec(*config, *request),
                !splits_wide_lane(*config, *request),
                t == lane_targets_spec(*config, *request),
                word_bytes == word_of(*config),
                bytes_per_lane == bytes_per_lane_spec(*config, *request),
                width == (if bytes_per_lane >= word_bytes {
                    bytes_per_lane
                } else {
                    word_bytes
                }),
                i <= t.len(),
                ops@.len() == i,
                forall|k: int| 0 <= k < i ==> #[trigger] op_from_plan(*config, *request, ops@[k], plan[k]),
            decreases t.len() - i,
        {
            let (lane, addr) = targets[i];
            let aligned = align_down(addr, word_bytes as u64);
            let (bank, subbank) = config.decode_addr(aligned);
            let mut ids: Vec<u64> = Vec::new();
            ids.push(request.id);
            assert(ids@ =~= seq![request.id]);
            ops.push(
                LaneOp {
                    request_id: request.id,
                    request_ids: ids,
                    lane,
                    addr: aligned,
                    bytes: width,
                    coalesced_ops: 1,
                    bank,
                    subbank,
                    is_store: request.is_store,
                    client: request.client,
                },
            );
            proof {
                assert(op_from_plan(*config, *request, ops@[i as int], plan[i as int]));
            }
            i = i + 1;
        }
        return ops;
    }
    let (lane, base_addr) = targets[0];
    let start = align_down(base_addr, word_bytes as u64);
    let end = align_up(base_addr.saturating_add(bytes_per_lane as u64), word_bytes as u64);
    let ghost words = split_words(start, end, word_bytes as u64);
    let mut addr = start;
    let mut word_idx: usize = 0;
    while addr < end
        invariant
            plan == lane_plan_spec(*config, *request),
            splits_wide_lane(*config, *request),
            t == lane_targets_spec(*config, *request),
            t.len() >= 1,
            lane == t[0].0,
            word_bytes == word_of(*config),
            word_bytes >= 1,
            last == last_lane(*config),
            words == split_words(start, end, word_bytes as u64),
            plan.len() == words.len(),
            forall|j: int| 0 <= j < words.len() ==> #[trigger] plan[j] == (
                min_int(lane + j, last as int) as usize,
                words[j],
                word_bytes,
            ),
            words == words.take(word_idx as int) + split_words(addr, end, word_bytes as u64),
            word_idx <= words.len(),
            ops@.len() == word_idx,
            forall|k: int| 0 <= k < word_idx ==> #[trigger] op_from_plan(*config, *request, ops@[k], plan[k]),
        decreases u64::MAX - addr,
    {
        let (bank, subbank) = config.decode_addr(addr);
        let mut ids: Vec<u64> = Vec::new();
        ids.push(request.id);
        assert(ids@ =~= seq![request.id]);
        let op_lane = if word_idx >= last || lane >= last - word_idx {
            last
        } else {
            lane + word_idx
        };
        let ghost rest = split_words(addr, end, word_bytes as u64);
        assert(rest[0] == addr);
        assert(words[word_idx as int] == addr);
        ops.push(
            LaneOp {
                request_id: request.id,
                request_ids: ids,
                lane: op_lane,
                addr,
                bytes: word_bytes,
                coalesced_ops: 1,
                bank,
                subbank,
                is_store: request.is_store,
                client: request.client,
            },
        );
        proof {
            assert(op_from_plan(*config, *request, ops@[word_idx as int], plan[word_idx as int]));
            let next = sat_add(addr as int, word_bytes as int);
            assert(rest == seq![addr] + split_words(next, end, word_bytes as u64));
            assert(words.take(word_idx + 1) =~= words.take(word_idx as int).push(addr));
            assert(words =~= words.take(word_idx + 1) + split_words(next, end, word_bytes as u64));
        }
        let ghost old_addr = addr;
        addr = addr.saturating_add(word_bytes as u64);
        assert(addr == sat_add(old_addr as int, word_bytes as int));
        assert(addr > old_addr);
        word_idx = ops.len();
    }
    proof {
        assert(split_words(addr, end, word_bytes as u64) =~= Seq::<u64>::empty());
        assert(words.take(word_idx as int) =~= words);
    }
    ops
}

/// A ready operation merged from one or more sources, with the sources it
/// came from.
#[derive(Debug)]
pub struct CoalescedReadyGroup {
    pub op: LaneOp,
    pub sources: Vec<usize>,
}

/// `a` and `b` access the same word the same way.
pub open spec fn same_word(a: LaneOp, b: LaneOp) -> bool {
    &&& a.addr == b.addr
    &&& a.bytes == b.bytes
    &&& a.is_store == b.is_store
    &&& a.bank == b.bank
    &&& a.subbank == b.subbank
}

/// Every operation accesses the same word as the first.
pub open spec fn all_same_word(ops: Seq<(usize, LaneOp)>) -> bool {
    forall|i: int| 0 <= i < ops.len() ==> #[trigger] same_word(ops[i].1, ops[0].1)
}

/// Requests an operation serves, as listed when merged into another.
pub open spec fn ids_of(op: LaneOp) -> Seq<u64> {
    if op.request_ids@.len() == 0 {
        seq![op.request_id]
    } else {
        op.request_ids@
    }
}

/// Requests that the operations of `rest` add when merged, in order.
pub open spec fn merged_ids(rest: Seq<(usize, LaneOp)>) -> Seq<u64>
    decreases rest.len(),
{
    if rest.len() == 0 {
        Seq::empty()
    } else {
        merged_ids(rest.drop_last()) + ids_of(rest.last().1)
    }
}

/// Access count after merging `rest` into an operation that counted
/// `first` (each merged operation counts at least one; saturating).
pub open spec fn merged_count(first: usize, rest: Seq<(usize, LaneOp)>) -> usize
    decreases rest.len(),
{
    if rest.len() == 0 {
        first
    } else {
        sat_add_usize(merged_count(first, rest.drop_last()) as int, one_or(rest.last().1.coalesced_ops) as int)
    }
}

/// Merge the ready operations of one cycle: when all access the same word
/// they become one operation that serves every request of every source;
/// otherwise each stays on its own.
pub fn coalesce_ready_lane_ops_with_sources(ops: Vec<(usize, LaneOp)>) -> (r: Vec<CoalescedReadyGroup>)
    ensures
        ops@.len() == 0 ==> r@.len() == 0,
        ops@.len() > 0 && !all_same_word(ops@) ==> r@.len() == ops@.len() && forall|i: int|
            0 <= i < ops@.len() ==> (#[trigger] r@[i]).op == ops@[i].1 && r@[i].sources@ == seq![ops@[i].0],
        ops@.len() > 0 && all_same_word(ops@) ==> r@.len() == 1 && ({
            let first = ops@[0].1;
            let rest = ops@.drop_first();
            let op = r@[0].op;
            &&& op.request_id == first.request_id
            &&& op.request_ids@ == first.request_ids@ + merged_ids(rest)
            &&& op.coalesced_ops == merged_count(first.coalesced_ops, rest)
            &&& op.lane == first.lane
            &&& same_word(op, first)
            &&& op.client == first.client
            &&& r@[0].sources@ == ops@.map_values(|p: (usize, LaneOp)| p.0)
        }),
{
    let ghost all = ops@;
    let mut ops = ops;
    let mut out: Vec<CoalescedReadyGroup> = Vec::new();
    let total = ops.len();
    if total == 0 {
        return out;
    }
    let mut same = true;
    let mut i: usize = 1;
    while i < ops.len()
        invariant
            ops@ == all,
            all.len() > 0,
            1 <= i <= all.len(),
            same == forall|k: int| 0 <= k < i ==> #[trigger] same_word(all[k].1, all[0].1),
        decreases all.len() - i,
    {
        let a = &ops[i].1;
        let b = &ops[0].1;
        let m = a.addr == b.addr && a.bytes == b.bytes && a.is_store == b.is_store && a.bank == b.bank
            && a.subbank == b.subbank;
        proof {
            assert(same_word(all[0].1, all[0].1));
            if !m {
                assert(!same_word(all[i as int].1, all[0].1));
            }
        }
        same = same && m;
        i = i + 1;
    }
    proof {
        assert(same_word(all[0].1, all[0].1));
    }
    if !same {
        let mut k: usize = 0;
        while ops.len() > 0
            invariant
                total == all.len(),
                k <= all.len(),
                ops@ == all.skip(k as int),
                out@.len() == k,
                forall|j: int|
                    0 <= j < k ==> (#[trigger] out@[j]).op == all[j].1 && out@[j].sources@ == seq![all[j].0],
            decreases ops@.len(),
        {
            assert(ops@[0] == all[k as int]);
            let (src, op) = ops.remove(0);
            let mut sources: Vec<usize> = Vec::new();
            sources.push(src);
            out.push(CoalescedReadyGroup { op, sources });
            proof {
                assert(sources@ =~= seq![all[k as int].0]);
                assert(ops@ =~= all.skip(k + 1));
            }
            k = k + 1;
        }
        return out;
    }
    let (first_source, first_op) = ops.remove(0);
    let mut merged = first_op;
    let mut sources: Vec<usize> = Vec::new();
    sources.push(first_source);
    let ghost first = all[0].1;
    let ghost rest = all.drop_first();
    let ghost srcs = all.map_values(|p: (usize, LaneOp)| p.0);
    let mut k: usize = 0;
    proof {
        assert(ops@ =~= rest.skip(0));
        assert(rest.take(0) =~= Seq::<(usize, LaneOp)>::empty());
        assert(merged.request_ids@ + merged_ids(rest.take(0)) =~= first.request_ids@);
        assert(sources@ =~= srcs.take(1));
    }
    while ops.len() > 0
        invariant
            all.len() > 0,
            total == all.len(),
            rest == all.drop_first(),
            first == all[0].1,
            all_same_word(all),
            srcs == all.map_values(|p: (usize, LaneOp)| p.0),
            k <= rest.len(),
            ops@ == rest.skip(k as int),
            merged.request_id == first.request_id,
            merged.request_ids@ == first.request_ids@ + merged_ids(rest.take(k as int)),
            merged.coalesced_ops == merged_count(first.coalesced_ops, rest.take(k as int)),
            merged.lane == first.lane,
            same_word(merged, first),
            merged.client == first.client,
            sources@ == srcs.take(k + 1),
        decreases ops@.len(),
    {
        assert(ops@[0] == rest[k as int]);
        let (src, op) = ops.remove(0);
        let ghost step = rest.take(k + 1);
        proof {
            assert(step.drop_last() =~= rest.take(k as int));
            assert(step.last() == rest[k as int]);
        }
        let add = if op.coalesced_ops == 0 {
            1
        } else {
            op.coalesced_ops
        };
        merged.coalesced_ops = merged.coalesced_ops.saturating_add(add);
        if op.request_ids.len() == 0 {
            merged.request_ids.push(op.request_id);
        } else {
            let mut q: usize = 0;
            let ghost base = merged.request_ids@;
            let ghost count = merged.coalesced_ops;
            while q < op.request_ids.len()
                invariant
                    merged.request_id == first.request_id,
                    merged.coalesced_ops == count,
                    merged.lane == first.lane,
                    same_word(merged, first),
                    merged.client == first.client,
                    q <= op.request_ids@.len(),
                    merged.request_ids@ == base + op.request_ids@.take(q as int),
                decreases op.request_ids@.len() - q,
            {
                merged.request_ids.push(op.request_ids[q]);
                q = q + 1;
                proof {
                    assert(merged.request_ids@ =~= base + op.request_ids@.take(q as int));
                }
            }
            assert(op.request_ids@.take(q as int) =~= op.request_ids@);
        }
        sources.push(src);
        proof {
            assert(merged.request_ids@ =~= first.request_ids@ + merged_ids(step));
            assert(srcs[k + 1] == all[k + 1].0);
            assert(sources@ =~= srcs.take(k + 2));
            assert(ops@ =~= rest.skip(k + 1));
        }
        k = k + 1;
    }
    proof {
        assert(rest.take(k as int) =~= rest);
        assert(srcs.take(k + 1) =~= srcs);
    }
    out.push(CoalescedReadyGroup { op: merged, sources });
    out
}

} // verus!
