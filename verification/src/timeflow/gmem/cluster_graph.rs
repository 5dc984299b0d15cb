//! The clustered global-memory model: per-core L0 caches, per-cluster L1
//! caches and a shared L2, whose tags and MSHRs decide what each request
//! does, and a timed graph that carries it.

use crate::timeflow::gmem::cache::{find_from, initial_order, CacheTagArray};
use crate::timeflow::gmem::cluster::{
    fold_counters, fresh_layer, layer_counters, lemma_fresh_layer_zero, zero_counters, CacheLayer, GmemHierarchy,
    LayerSel,
};
use crate::timeflow::gmem::graph_build::{build_cluster_graph, core_configured, core_links_present, level_banks, GmemFlowConfig, GmemGraph};
use crate::timeflow::gmem::mshr::{MissLevel, MissMetadata, MshrSlot};
use crate::timeflow::gmem::policy::{
    bank_for, bank_for_spec, hash_rule_holds, line_addr, line_addr_spec, rule_applies, GmemPolicyConfig,
};
use crate::timeflow::gmem::request::{
    extract_gmem_request, GmemCompletion, GmemIssue, GmemReject, GmemRejectReason, GmemRequest,
    GmemRequestKind, GmemResult,
};
use crate::timeflow::gmem::stats::{merged_counters, GmemCounters, GmemStats};
use crate::timeflow::graph::TimedNode;
use crate::timeflow::types::{CoreFlowPayload, NodeId};
use crate::timeq::{
    normalize_retry, normalize_retry_spec, sat_add, sat_mul_usize, Backpressure, Cycle, ServiceRequest, ServiceResult, Ticket,
};
use std::collections::VecDeque;
use vstd::prelude::*;

verus! {

/// Salt of the L1 bank hash.
pub const L1_BANK_SEED: u64 = 0x1111_2222_3333_4444;

/// Salt of the L2 bank hash.
pub const L2_BANK_SEED: u64 = 0x5555_6666_7777_8888;

/// A core's view of the model: its entry and return nodes, the completions
/// collected for it, its statistics and the next free request id.
struct ClusterCoreState {
    ingress_node: NodeId,
    return_node: NodeId,
    completions: VecDeque<GmemCompletion>,
    stats: GmemStats,
    next_id: u64,
}

pub struct ClusterGmemGraph {
    graph: GmemGraph,
    cores: Vec<ClusterCoreState>,
    policy: GmemPolicyConfig,
    l1_banks: usize,
    hierarchy: GmemHierarchy,
    last_tick: Cycle,
}

/// Identifier an issued request carries: its own, or the core's next free
/// one when it has none.
pub open spec fn cluster_assigned_id(next: u64, id: u64) -> u64 {
    if id == 0 {
        next
    } else {
        id
    }
}

/// The form in which a flush from core `core` with id `id` enters the
/// graph: the flush size (at least one byte), no hits, writebacks, banks or
/// line.
pub open spec fn flush_form(policy: GmemPolicyConfig, core: usize, id: u64, request: GmemRequest) -> GmemRequest {
    GmemRequest {
        core_id: core,
        id,
        bytes: if policy.flush_bytes >= 1 {
            policy.flush_bytes
        } else {
            1
        },
        l0_hit: false,
        l1_hit: false,
        l2_hit: false,
        l1_writeback: false,
        l2_writeback: false,
        l1_bank: 0,
        l2_bank: 0,
        line_addr: 0,
        ..request
    }
}

/// Bytes charged for a request: its own for an access, the flush size (at
/// least one) for a flush.
pub open spec fn charged_bytes(policy: GmemPolicyConfig, request: GmemRequest) -> u32 {
    if request.kind == GmemRequestKind::Load || request.kind == GmemRequestKind::Store {
        request.bytes
    } else if policy.flush_bytes >= 1 {
        policy.flush_bytes
    } else {
        1
    }
}

/// A core's next free id after it issued request `id`.
pub open spec fn next_after(next: u64, id: u64) -> u64 {
    if id >= next {
        sat_add(id as int, 1)
    } else {
        next
    }
}

/// `post` is `pre` with completions stamped `now` appended.
pub open spec fn grew(pre: Seq<GmemCompletion>, post: Seq<GmemCompletion>, now: Cycle) -> bool {
    &&& post.len() >= pre.len()
    &&& post.take(pre.len() as int) == pre
    &&& forall|j: int| pre.len() <= j < post.len() ==> (#[trigger] post[j]).completed_at == now
}

pub proof fn lemma_grew_trans(a: Seq<GmemCompletion>, b: Seq<GmemCompletion>, c: Seq<GmemCompletion>, now: Cycle)
    requires
        grew(a, b, now),
        grew(b, c, now),
    ensures
        grew(a, c, now),
{
    assert(c.take(b.len() as int) == b);
    assert(c.take(a.len() as int) =~= b.take(a.len() as int));
    assert forall|j: int| a.len() <= j < c.len() implies (#[trigger] c[j]).completed_at == now by {
        if j < b.len() {
            assert(c[j] == c.take(b.len() as int)[j]);
            assert(b[j].completed_at == now);
        }
    }
}

/// Layer `sel` of `post` is that of `pre`, with the MSHR entry of `line` at
/// bank `bank` released when `release` holds (nothing when it has none).
pub open spec fn released_at(pre: GmemHierarchy, post: GmemHierarchy, sel: LayerSel, bank: usize, line: u64, release: bool) -> bool {
    pre.has_layer(sel) ==> {
        let l = pre.layer(sel);
        let l2 = post.layer(sel);
        if !release {
            l2 == l
        } else {
            &&& l2.tags == l.tags
            &&& l2.banks@.len() == l.banks@.len()
            &&& forall|j: int| 0 <= j < l.banks@.len() && j != bank ==> #[trigger] l2.banks@[j] == l.banks@[j]
            &&& bank < l.banks@.len() ==> {
                let m = l.banks@[bank as int].mshr;
                let m2 = l2.banks@[bank as int].mshr;
                &&& l2.banks@[bank as int].stats == l.banks@[bank as int].stats
                &&& m2.cap() == m.cap()
                &&& m.table().contains_key(line) ==> m2.table() == m.table().remove(line) && m2.count() == m.count() - 1
                &&& !m.table().contains_key(line) ==> m2.table() == m.table() && m2.count() == m.count()
            }
        }
    }
}

/// Layer `sel` of `post` is that of `pre`, with the MSHR entry of `line` at
/// bank `bank` (if any) ready at `at` when `mark` holds.
pub open spec fn readied_at(pre: GmemHierarchy, post: GmemHierarchy, sel: LayerSel, bank: usize, line: u64, at: Cycle, mark: bool) -> bool {
    pre.has_layer(sel) ==> {
        let l = pre.layer(sel);
        let l2 = post.layer(sel);
        if !mark {
            l2 == l
        } else {
            &&& l2.tags == l.tags
            &&& l2.banks@.len() == l.banks@.len()
            &&& forall|j: int| 0 <= j < l.banks@.len() && j != bank ==> #[trigger] l2.banks@[j] == l.banks@[j]
            &&& bank < l.banks@.len() ==> {
                let m = l.banks@[bank as int].mshr;
                let m2 = l2.banks@[bank as int].mshr;
                &&& l2.banks@[bank as int].stats == l.banks@[bank as int].stats
                &&& m2.cap() == m.cap()
                &&& m2.count() == m.count()
                &&& m.table().contains_key(line) ==> m2.table() == m.table().insert(
                    line,
                    MshrSlot { ready_at: Some(at), ..m.table()[line] },
                )
                &&& !m.table().contains_key(line) ==> m2.table() == m.table()
            }
        }
    }
}

/// Layer `sel` of `post` is that of `pre`, with `line` filled into its tags
/// when `fill` holds.
pub open spec fn filled_at(pre: GmemHierarchy, post: GmemHierarchy, sel: LayerSel, line: u64, fill: bool) -> bool {
    pre.has_layer(sel) ==> if fill {
        &&& post.layer(sel).banks == pre.layer(sel).banks
        &&& pre.layer(sel).tags.filled(&post.layer(sel).tags, line)
    } else {
        post.layer(sel) == pre.layer(sel)
    }
}

/// Layer `sel` of `post` is that of `pre`, with every tag of it
/// invalidated when `clear` holds.
pub open spec fn cleared_at(pre: GmemHierarchy, post: GmemHierarchy, sel: LayerSel, clear: bool) -> bool {
    pre.has_layer(sel) ==> if clear {
        let t = post.layer(sel).tags;
        &&& post.layer(sel).banks == pre.layer(sel).banks
        &&& t.wf()
        &&& t.n_sets() == pre.layer(sel).tags.n_sets()
        &&& t.n_ways() == pre.layer(sel).tags.n_ways()
        &&& forall|i: int| 0 <= i < t.tags_view().len() ==> (#[trigger] t.tags_view()[i]) is None
        &&& forall|s: int| 0 <= s < t.n_sets() ==> #[trigger] t.orders()[s] == initial_order(t.n_ways())
    } else {
        post.layer(sel) == pre.layer(sel)
    }
}

/// The requests merged into the MSHR entry of `line` at bank `bank` of
/// layer `sel` of `h` (none when there is no such entry).
pub open spec fn entry_merged(h: GmemHierarchy, sel: LayerSel, bank: usize, line: u64) -> Seq<GmemRequest> {
    if h.has_layer(sel) && bank < h.layer(sel).banks@.len() && h.layer(sel).banks@[bank as int].mshr.table().contains_key(line) {
        h.layer(sel).banks@[bank as int].mshr.table()[line].merged
    } else {
        Seq::empty()
    }
}

/// The global-memory requests among the completions `s`, in order, each
/// with its ready cycle.
pub open spec fn gmem_returns(s: Seq<ServiceResult<CoreFlowPayload>>) -> Seq<(GmemRequest, Cycle)>
    decreases s.len(),
{
    if s.len() == 0 {
        Seq::empty()
    } else {
        let head: Seq<(GmemRequest, Cycle)> = match s[0].payload {
            CoreFlowPayload::Gmem(r) => seq![(r, s[0].ticket.ready())],
            CoreFlowPayload::Smem(_) => Seq::empty(),
        };
        head + gmem_returns(s.drop_first())
    }
}

/// The entries of `items` whose request belongs to core `i`, in order.
pub open spec fn for_core(i: int, items: Seq<(GmemRequest, Cycle)>) -> Seq<(GmemRequest, Cycle)>
    decreases items.len(),
{
    if items.len() == 0 {
        Seq::empty()
    } else {
        let rest = for_core(i, items.drop_last());
        if items.last().0.core_id == i {
            rest.push(items.last())
        } else {
            rest
        }
    }
}

/// `cs` are the completions, stamped `now`, of the requests of `items`
/// (each with its ticket's ready cycle), in order.
pub open spec fn completions_match(cs: Seq<GmemCompletion>, items: Seq<(GmemRequest, Cycle)>, now: Cycle) -> bool {
    &&& cs.len() == items.len()
    &&& forall|j: int|
        0 <= j < cs.len() ==> (#[trigger] cs[j]).request.same_as(&items[j].0) && cs[j].ticket_ready_at == items[j].1
            && cs[j].completed_at == now
}

/// The requests merged into the MSHR entry that the completion of
/// `request` releases, in hierarchy `h` under `policy`.
pub open spec fn merged_of(h: GmemHierarchy, policy: GmemPolicyConfig, request: GmemRequest) -> Seq<GmemRequest> {
    if !(request.kind == GmemRequestKind::Load || request.kind == GmemRequestKind::Store) {
        Seq::empty()
    } else {
        match deepest_miss(policy.l0_enabled, request) {
            MissLevel::NoMiss => Seq::empty(),
            MissLevel::L0 => entry_merged(h, LayerSel::L0(request.core_id), 0, line_addr_spec(request.addr, policy.l0_line_bytes)),
            MissLevel::L1 => entry_merged(h, LayerSel::L1(request.cluster_id), request.l1_bank, line_addr_spec(request.addr, policy.l1_line_bytes)),
            MissLevel::L2 => entry_merged(h, LayerSel::L2, request.l2_bank, line_addr_spec(request.addr, policy.l2_line_bytes)),
        }
    }
}

/// Each request of `ms`, paired with the ready cycle `at`.
pub open spec fn at_cycle(ms: Seq<GmemRequest>, at: Cycle) -> Seq<(GmemRequest, Cycle)> {
    ms.map_values(|m: GmemRequest| (m, at))
}

/// The returns `rets`, each followed by the requests of `ms` at its
/// position (with the return's ready cycle).
pub open spec fn expand(rets: Seq<(GmemRequest, Cycle)>, ms: Seq<Seq<GmemRequest>>) -> Seq<(GmemRequest, Cycle)>
    decreases rets.len(),
{
    if rets.len() == 0 || ms.len() < rets.len() {
        Seq::empty()
    } else {
        expand(rets.drop_last(), ms.take(rets.len() - 1)) + seq![rets.last()] + at_cycle(ms[rets.len() - 1], rets.last().1)
    }
}

proof fn lemma_for_core_concat(i: int, a: Seq<(GmemRequest, Cycle)>, b: Seq<(GmemRequest, Cycle)>)
    ensures
        for_core(i, a + b) == for_core(i, a) + for_core(i, b),
    decreases b.len(),
{
    if b.len() == 0 {
        assert(a + b =~= a);
        assert(for_core(i, a) + for_core(i, b) =~= for_core(i, a));
    } else {
        lemma_for_core_concat(i, a, b.drop_last());
        assert((a + b).drop_last() =~= a + b.drop_last());
        assert((a + b).last() == b.last());
        if b.last().0.core_id == i {
            assert(for_core(i, a) + for_core(i, b) =~= (for_core(i, a) + for_core(i, b.drop_last())).push(b.last()));
        }
    }
}

proof fn lemma_match_concat(c1: Seq<GmemCompletion>, i1: Seq<(GmemRequest, Cycle)>, c2: Seq<GmemCompletion>, i2: Seq<(GmemRequest, Cycle)>, now: Cycle)
    requires
        completions_match(c1, i1, now),
        completions_match(c2, i2, now),
    ensures
        completions_match(c1 + c2, i1 + i2, now),
{
    assert forall|j: int| 0 <= j < (c1 + c2).len() implies (#[trigger] (c1 + c2)[j]).request.same_as(&(i1 + i2)[j].0)
        && (c1 + c2)[j].ticket_ready_at == (i1 + i2)[j].1 && (c1 + c2)[j].completed_at == now by {
        if j < c1.len() {
            assert((c1 + c2)[j] == c1[j]);
            assert((i1 + i2)[j] == i1[j]);
        } else {
            assert((c1 + c2)[j] == c2[j - c1.len()]);
            assert((i1 + i2)[j] == i2[j - i1.len()]);
        }
    }
}

/// Requests alike field by field belong to the same cores.
proof fn lemma_for_core_alike(i: int, x: Seq<(GmemRequest, Cycle)>, y: Seq<(GmemRequest, Cycle)>)
    requires
        x.len() == y.len(),
        forall|j: int| 0 <= j < x.len() ==> (#[trigger] x[j]).0.same_as(&y[j].0) && x[j].1 == y[j].1,
    ensures
        for_core(i, x).len() == for_core(i, y).len(),
        forall|j: int|
            0 <= j < for_core(i, x).len() ==> (#[trigger] for_core(i, x)[j]).0.same_as(&for_core(i, y)[j].0)
                && for_core(i, x)[j].1 == for_core(i, y)[j].1,
    decreases x.len(),
{
    if x.len() > 0 {
        lemma_for_core_alike(i, x.drop_last(), y.drop_last());
        assert(x.last() == x[x.len() - 1]);
        assert(y.last() == y[y.len() - 1]);
    }
}

/// Hierarchies whose layers keep their banks hold the same merged
/// requests.
proof fn lemma_merged_kept(h: GmemHierarchy, h2: GmemHierarchy, policy: GmemPolicyConfig, request: GmemRequest)
    requires
        h.same_layers(&h2),
        forall|sel: LayerSel| h.has_layer(sel) ==> (#[trigger] h2.layer(sel)).banks == h.layer(sel).banks,
    ensures
        merged_of(h2, policy, request) == merged_of(h, policy, request),
{
    assert(h2.layer(LayerSel::L0(request.core_id)).banks == h.layer(LayerSel::L0(request.core_id)).banks || !h.has_layer(LayerSel::L0(request.core_id)));
    assert(h2.layer(LayerSel::L1(request.cluster_id)).banks == h.layer(LayerSel::L1(request.cluster_id)).banks || !h.has_layer(LayerSel::L1(request.cluster_id)));
    assert(h2.layer(LayerSel::L2).banks == h.layer(LayerSel::L2).banks);
}

/// The tags `t` hold `line`.
pub open spec fn tag_hit(t: CacheTagArray, line: u64) -> bool {
    find_from(t.row(t.set_of(line)), Some(line), 0) < t.n_ways()
}

/// `request` with the hits and writebacks that probing hierarchy `h` under
/// `policy` for core `core_id` at lines `lines` gives: it probes the L0
/// (when enabled and the core has one), then on a miss its cluster's L1,
/// then on a miss the L2; a level missed by an access that goes on writes
/// back when the policy's rule selects its line key.
pub open spec fn probed_request(
    h: GmemHierarchy,
    policy: GmemPolicyConfig,
    core_id: usize,
    request: GmemRequest,
    lines: (u64, u64, u64),
) -> GmemRequest {
    let cluster_id = request.cluster_id;
    let l0_hit = policy.l0_enabled && core_id < h.l0@.len() && tag_hit(h.l0@[core_id as int].tags, lines.0);
    let l1_hit = cluster_id < h.l1@.len() && tag_hit(h.l1@[cluster_id as int].tags, lines.1);
    let l2_hit = tag_hit(h.l2.tags, lines.2);
    if l0_hit {
        GmemRequest { l0_hit: true, l1_hit: false, l2_hit: false, l1_writeback: false, l2_writeback: false, ..request }
    } else {
        let l1_key = lines.1 ^ (cluster_id as u64).wrapping_mul(0xc2b2_ae3d_27d4_eb4fu64) ^ policy.seed;
        let l2_key = lines.2 ^ policy.seed;
        GmemRequest {
            l0_hit: false,
            l1_hit,
            l2_hit: !l1_hit && l2_hit,
            l1_writeback: !l1_hit && rule_applies(policy.l1_writeback, l1_key ^ 0xD4D4_D4D4_D4D4_D4D4u64),
            l2_writeback: !l1_hit && !l2_hit && rule_applies(policy.l2_writeback, l2_key ^ 0xE5E5_E5E5_E5E5_E5E5u64),
            ..request
        }
    }
}

/// Deepest level at which `request` missed: none when it hit its first
/// level (the L0 when `l0_enabled`, else the L1), else the level above its
/// first hit, the L2 when it hit nowhere.
pub open spec fn deepest_miss(l0_enabled: bool, request: GmemRequest) -> MissLevel {
    if l0_enabled {
        if request.l0_hit {
            MissLevel::NoMiss
        } else if request.l1_hit {
            MissLevel::L0
        } else if request.l2_hit {
            MissLevel::L1
        } else {
            MissLevel::L2
        }
    } else if request.l1_hit {
        MissLevel::NoMiss
    } else if request.l2_hit {
        MissLevel::L1
    } else {
        MissLevel::L2
    }
}

/// Bank `bank` of layer `sel` tracks a miss to `line`.
pub open spec fn mshr_has(h: GmemHierarchy, sel: LayerSel, bank: usize, line: u64) -> bool {
    &&& h.has_layer(sel)
    &&& bank < h.layer(sel).banks@.len()
    &&& h.layer(sel).banks@[bank as int].mshr.table().contains_key(line)
}

/// Bank `bank` of layer `sel` can track a miss to `line`: it already does,
/// or its MSHR table has a free entry.
pub open spec fn mshr_room(h: GmemHierarchy, sel: LayerSel, bank: usize, line: u64) -> bool {
    &&& h.has_layer(sel)
    &&& bank < h.layer(sel).banks@.len()
    &&& ({
        let m = h.layer(sel).banks@[bank as int].mshr;
        m.table().contains_key(line) || m.count() < m.cap()
    })
}

/// Entries bank `bank` of layer `sel` holds.
pub open spec fn mshr_count(h: GmemHierarchy, sel: LayerSel, bank: usize) -> int {
    h.layer(sel).banks@[bank as int].mshr.count() as int
}

/// The entry bank `bank` of layer `sel` keeps for `line`.
pub open spec fn mshr_slot(h: GmemHierarchy, sel: LayerSel, bank: usize, line: u64) -> MshrSlot {
    h.layer(sel).banks@[bank as int].mshr.table()[line]
}

/// `h2` tracks the same misses, in the same entries, with the same room,
/// as `h`.
#[verifier::opaque]
pub open spec fn mshrs_kept(h: GmemHierarchy, h2: GmemHierarchy) -> bool {
    &&& forall|sel: LayerSel, bank: usize, line: u64| #[trigger] mshr_has(h2, sel, bank, line) == mshr_has(h, sel, bank, line)
    &&& forall|sel: LayerSel, bank: usize, line: u64| #[trigger] mshr_room(h2, sel, bank, line) == mshr_room(h, sel, bank, line)
    &&& forall|sel: LayerSel, bank: usize, line: u64|
        mshr_has(h, sel, bank, line) ==> #[trigger] mshr_slot(h2, sel, bank, line) == mshr_slot(h, sel, bank, line)
    &&& h2.l0@.len() == h.l0@.len() && h2.l1@.len() == h.l1@.len()
    &&& forall|sel: LayerSel| h.has_layer(sel) ==> (#[trigger] h2.layer(sel)).banks@.len() == h.layer(sel).banks@.len()
    &&& forall|sel: LayerSel, bank: usize|
        h.has_layer(sel) && bank < h.layer(sel).banks@.len() ==> #[trigger] mshr_count(h2, sel, bank) == mshr_count(h, sel, bank)
}

/// How the MSHRs answer an access `q` from core `core` whose lines are
/// `lines`: it joins the entry of the deepest level it missed at, it is
/// refused for want of an entry on its way down, or it takes entries down
/// to that level and goes on into the graph.
#[derive(PartialEq, Eq, Structural)]
pub enum MshrVerdict {
    Merge,
    Full,
    Reserve,
}

pub open spec fn mshr_verdict(h: GmemHierarchy, l0_enabled: bool, core: usize, q: GmemRequest, lines: (u64, u64, u64)) -> MshrVerdict {
    let l0 = LayerSel::L0(core);
    let l1 = LayerSel::L1(q.cluster_id);
    let l0_blocked = l0_enabled && !mshr_has(h, l0, 0, lines.0) && !mshr_room(h, l0, 0, lines.0);
    match deepest_miss(l0_enabled, q) {
        MissLevel::NoMiss => MshrVerdict::Reserve,
        MissLevel::L0 => if mshr_has(h, l0, 0, lines.0) {
            MshrVerdict::Merge
        } else if !mshr_room(h, l0, 0, lines.0) {
            MshrVerdict::Full
        } else {
            MshrVerdict::Reserve
        },
        MissLevel::L1 => if l0_blocked {
            MshrVerdict::Full
        } else if mshr_has(h, l1, q.l1_bank, lines.1) {
            MshrVerdict::Merge
        } else if !mshr_room(h, l1, q.l1_bank, lines.1) {
            MshrVerdict::Full
        } else {
            MshrVerdict::Reserve
        },
        MissLevel::L2 => if l0_blocked {
            MshrVerdict::Full
        } else if !mshr_has(h, l1, q.l1_bank, lines.1) && !mshr_room(h, l1, q.l1_bank, lines.1) {
            MshrVerdict::Full
        } else if mshr_has(h, LayerSel::L2, q.l2_bank, lines.2) {
            MshrVerdict::Merge
        } else if !mshr_room(h, LayerSel::L2, q.l2_bank, lines.2) {
            MshrVerdict::Full
        } else {
            MshrVerdict::Reserve
        },
    }
}

/// Where an access `q` from core `core` that missed down to some level
/// looks for an entry to join: the MSHRs of that level, at its bank and
/// line.
pub open spec fn miss_slot(l0_enabled: bool, core: usize, q: GmemRequest, lines: (u64, u64, u64)) -> (LayerSel, usize, u64) {
    match deepest_miss(l0_enabled, q) {
        MissLevel::L0 => (LayerSel::L0(core), 0usize, lines.0),
        MissLevel::L1 => (LayerSel::L1(q.cluster_id), q.l1_bank, lines.1),
        _ => (LayerSel::L2, q.l2_bank, lines.2),
    }
}

/// The cycle an access that joins the entry at `slot` of `h` is ready:
/// the entry's ready cycle, or the next cycle when it has none yet.
pub open spec fn merge_ready(h: GmemHierarchy, slot: (LayerSel, usize, u64), now: Cycle) -> Cycle {
    match h.layer(slot.0).banks@[slot.1 as int].mshr.table()[slot.2].ready_at {
        Some(at) => at,
        None => sat_add(now as int, 1),
    }
}

/// When `on` holds, bank `bank` of layer `sel` of `h2` tracks the miss to
/// `line`, with one entry more than in `h` unless `h` tracked it already,
/// and tracks every other line just as `h` does.
pub open spec fn took_entry(h: GmemHierarchy, h2: GmemHierarchy, sel: LayerSel, bank: usize, line: u64, on: bool) -> bool {
    on ==> {
        &&& h.has_layer(sel) && bank < h.layer(sel).banks@.len()
        &&& mshr_has(h2, sel, bank, line)
        &&& mshr_count(h2, sel, bank) == mshr_count(h, sel, bank) + if mshr_has(h, sel, bank, line) {
            0int
        } else {
            1int
        }
        &&& forall|l: u64| l != line ==> #[trigger] mshr_has(h2, sel, bank, l) == mshr_has(h, sel, bank, l)
    }
}

/// The entries an access `q` from core `core` that goes on into the graph
/// holds: one for its line at each level down to the one it missed at (the
/// L0 only when enabled).
pub open spec fn took_entries(h: GmemHierarchy, h2: GmemHierarchy, l0_enabled: bool, core: usize, q: GmemRequest, lines: (u64, u64, u64)) -> bool {
    let level = deepest_miss(l0_enabled, q);
    &&& took_entry(h, h2, LayerSel::L0(core), 0, lines.0, l0_enabled && level != MissLevel::NoMiss)
    &&& took_entry(h, h2, LayerSel::L1(q.cluster_id), q.l1_bank, lines.1, level == MissLevel::L1 || level == MissLevel::L2)
    &&& took_entry(h, h2, LayerSel::L2, q.l2_bank, lines.2, level == MissLevel::L2)
}

/// The lines of `addr` at L0 (zero when the L0 is off), L1 and L2.
pub open spec fn access_lines(policy: GmemPolicyConfig, addr: u64) -> (u64, u64, u64) {
    (
        if policy.l0_enabled {
            line_addr_spec(addr, policy.l0_line_bytes)
        } else {
            0
        },
        line_addr_spec(addr, policy.l1_line_bytes),
        line_addr_spec(addr, policy.l2_line_bytes),
    )
}

/// Hierarchies that track the same misses with the same room answer an
/// access alike.
proof fn lemma_verdict_kept(h: GmemHierarchy, h2: GmemHierarchy, l0_enabled: bool, core: usize, q: GmemRequest, lines: (u64, u64, u64))
    requires
        mshrs_kept(h, h2),
    ensures
        mshr_verdict(h2, l0_enabled, core, q, lines) == mshr_verdict(h, l0_enabled, core, q, lines),
{
    reveal(mshrs_kept);
    let l0 = LayerSel::L0(core);
    let l1 = LayerSel::L1(q.cluster_id);
    assert(mshr_has(h2, l0, 0, lines.0) == mshr_has(h, l0, 0, lines.0));
    assert(mshr_room(h2, l0, 0, lines.0) == mshr_room(h, l0, 0, lines.0));
    assert(mshr_has(h2, l1, q.l1_bank, lines.1) == mshr_has(h, l1, q.l1_bank, lines.1));
    assert(mshr_room(h2, l1, q.l1_bank, lines.1) == mshr_room(h, l1, q.l1_bank, lines.1));
    assert(mshr_has(h2, LayerSel::L2, q.l2_bank, lines.2) == mshr_has(h, LayerSel::L2, q.l2_bank, lines.2));
    assert(mshr_room(h2, LayerSel::L2, q.l2_bank, lines.2) == mshr_room(h, LayerSel::L2, q.l2_bank, lines.2));
}

/// Hierarchies that keep the same entries give an access that joins one
/// the same ready cycle.
proof fn lemma_merge_ready_kept(
    h: GmemHierarchy,
    h2: GmemHierarchy,
    l0_enabled: bool,
    core: usize,
    q: GmemRequest,
    lines: (u64, u64, u64),
    now: Cycle,
)
    requires
        mshrs_kept(h, h2),
        mshr_verdict(h, l0_enabled, core, q, lines) == MshrVerdict::Merge,
    ensures
        merge_ready(h2, miss_slot(l0_enabled, core, q, lines), now) == merge_ready(h, miss_slot(l0_enabled, core, q, lines), now),
{
    reveal(mshrs_kept);
    let slot = miss_slot(l0_enabled, core, q, lines);
    assert(mshr_has(h, slot.0, slot.1, slot.2));
    assert(mshr_slot(h2, slot.0, slot.1, slot.2) == mshr_slot(h, slot.0, slot.1, slot.2));
}

/// The entries an access takes, seen through a step that keeps every
/// entry and a step that only marks the taken ones ready.
proof fn lemma_took_through(
    h0: GmemHierarchy,
    h1: GmemHierarchy,
    h2: GmemHierarchy,
    h3: GmemHierarchy,
    l0_enabled: bool,
    core: usize,
    q: GmemRequest,
    lines: (u64, u64, u64),
    at: Cycle,
)
    requires
        mshrs_kept(h0, h1),
        took_entries(h1, h2, l0_enabled, core, q, lines),
        readied_at(h2, h3, LayerSel::L0(core), 0, lines.0, at, l0_enabled && deepest_miss(l0_enabled, q) != MissLevel::NoMiss),
        readied_at(h2, h3, LayerSel::L1(q.cluster_id), q.l1_bank, lines.1, at,
            deepest_miss(l0_enabled, q) == MissLevel::L1 || deepest_miss(l0_enabled, q) == MissLevel::L2),
        readied_at(h2, h3, LayerSel::L2, q.l2_bank, lines.2, at, deepest_miss(l0_enabled, q) == MissLevel::L2),
        h2.same_layers(&h3),
    ensures
        took_entries(h0, h3, l0_enabled, core, q, lines),
{
    reveal(mshrs_kept);
    let level = deepest_miss(l0_enabled, q);
    lemma_took_one(h0, h1, h2, h3, LayerSel::L0(core), 0, lines.0, at, l0_enabled && level != MissLevel::NoMiss);
    lemma_took_one(h0, h1, h2, h3, LayerSel::L1(q.cluster_id), q.l1_bank, lines.1, at, level == MissLevel::L1 || level == MissLevel::L2);
    lemma_took_one(h0, h1, h2, h3, LayerSel::L2, q.l2_bank, lines.2, at, level == MissLevel::L2);
}

proof fn lemma_took_one(
    h0: GmemHierarchy,
    h1: GmemHierarchy,
    h2: GmemHierarchy,
    h3: GmemHierarchy,
    sel: LayerSel,
    bank: usize,
    line: u64,
    at: Cycle,
    on: bool,
)
    requires
        mshrs_kept(h0, h1),
        took_entry(h1, h2, sel, bank, line, on),
        readied_at(h2, h3, sel, bank, line, at, on),
        h2.same_layers(&h3),
    ensures
        took_entry(h0, h3, sel, bank, line, on),
{
    reveal(mshrs_kept);
    if on {
        assert(mshr_has(h2, sel, bank, line));
        assert(h0.has_layer(sel));
        assert(h1.layer(sel).banks@.len() == h0.layer(sel).banks@.len());
        assert(mshr_count(h1, sel, bank) == mshr_count(h0, sel, bank));
        assert(mshr_has(h1, sel, bank, line) == mshr_has(h0, sel, bank, line));
        let m = h2.layer(sel).banks@[bank as int].mshr;
        let m3 = h3.layer(sel).banks@[bank as int].mshr;
        assert(m3.table() == m.table().insert(line, MshrSlot { ready_at: Some(at), ..m.table()[line] }));
        assert(mshr_has(h3, sel, bank, line));
        assert forall|l: u64| l != line implies #[trigger] mshr_has(h3, sel, bank, l) == mshr_has(h0, sel, bank, l) by {
            assert(mshr_has(h2, sel, bank, l) == mshr_has(h1, sel, bank, l));
            assert(mshr_has(h1, sel, bank, l) == mshr_has(h0, sel, bank, l));
            assert(m3.table().contains_key(l) == m.table().contains_key(l));
        }
    }
}

/// A step that leaves every MSHR of layer `sel` as it was, and every other
/// layer untouched, keeps what the MSHRs track.
proof fn lemma_mshrs_step(h0: GmemHierarchy, h: GmemHierarchy, h2: GmemHierarchy, sel: LayerSel)
    requires
        mshrs_kept(h0, h),
        h.changed_only(&h2, sel),
        !h.has_layer(sel) ==> h2 == h,
        h.has_layer(sel) ==> h2.layer(sel).banks@.len() == h.layer(sel).banks@.len() && forall|b: int|
            0 <= b < h.layer(sel).banks@.len() ==> #[trigger] h2.layer(sel).banks@[b].mshr == h.layer(
                sel,
            ).banks@[b].mshr,
    ensures
        mshrs_kept(h0, h2),
{
    reveal(mshrs_kept);
    assert forall|s2: LayerSel, bank: usize, line: u64| #[trigger] mshr_has(h2, s2, bank, line) == mshr_has(h, s2, bank, line)
        && mshr_room(h2, s2, bank, line) == mshr_room(h, s2, bank, line) by {
        if h.has_layer(s2) {
            match s2 {
                LayerSel::L0(j) => {
                    if s2 != sel {
                        assert(h2.l0@[j as int] == h.l0@[j as int]);
                    }
                },
                LayerSel::L1(j) => {
                    if s2 != sel {
                        assert(h2.l1@[j as int] == h.l1@[j as int]);
                    }
                },
                LayerSel::L2 => {},
            }
            if s2 == sel && bank < h.layer(sel).banks@.len() {
                assert(h2.layer(sel).banks@[bank as int].mshr == h.layer(sel).banks@[bank as int].mshr);
            }
        }
    }
    assert forall|s2: LayerSel| h0.has_layer(s2) implies (#[trigger] h2.layer(s2)).banks@.len() == h0.layer(s2).banks@.len() by {
        assert(h.layer(s2).banks@.len() == h0.layer(s2).banks@.len());
        match s2 {
            LayerSel::L0(j) => {
                if s2 != sel {
                    assert(h2.l0@[j as int] == h.l0@[j as int]);
                }
            },
            LayerSel::L1(j) => {
                if s2 != sel {
                    assert(h2.l1@[j as int] == h.l1@[j as int]);
                }
            },
            LayerSel::L2 => {},
        }
    }
    assert forall|s2: LayerSel, bank: usize|
        h0.has_layer(s2) && bank < h0.layer(s2).banks@.len() implies #[trigger] mshr_count(h2, s2, bank) == mshr_count(h0, s2, bank) by {
        assert(mshr_count(h, s2, bank) == mshr_count(h0, s2, bank));
        assert(h.layer(s2).banks@.len() == h0.layer(s2).banks@.len());
        match s2 {
            LayerSel::L0(j) => {
                if s2 != sel {
                    assert(h2.l0@[j as int] == h.l0@[j as int]);
                }
            },
            LayerSel::L1(j) => {
                if s2 != sel {
                    assert(h2.l1@[j as int] == h.l1@[j as int]);
                }
            },
            LayerSel::L2 => {},
        }
        if s2 == sel {
            assert(h2.layer(sel).banks@[bank as int].mshr == h.layer(sel).banks@[bank as int].mshr);
        }
    }
    assert forall|s2: LayerSel, bank: usize, line: u64|
        mshr_has(h0, s2, bank, line) implies #[trigger] mshr_slot(h2, s2, bank, line) == mshr_slot(h0, s2, bank, line) by {
        assert(mshr_has(h, s2, bank, line));
        assert(mshr_slot(h, s2, bank, line) == mshr_slot(h0, s2, bank, line));
        match s2 {
            LayerSel::L0(j) => {
                if s2 != sel {
                    assert(h2.l0@[j as int] == h.l0@[j as int]);
                }
            },
            LayerSel::L1(j) => {
                if s2 != sel {
                    assert(h2.l1@[j as int] == h.l1@[j as int]);
                }
            },
            LayerSel::L2 => {},
        }
        if s2 == sel {
            assert(h2.layer(sel).banks@[bank as int].mshr == h.layer(sel).banks@[bank as int].mshr);
        }
    }
    assert forall|s2: LayerSel, bank: usize, line: u64| #[trigger] mshr_room(h2, s2, bank, line) == mshr_room(h0, s2, bank, line) by {
        assert(mshr_room(h2, s2, bank, line) == mshr_room(h, s2, bank, line));
        assert(mshr_room(h, s2, bank, line) == mshr_room(h0, s2, bank, line));
    }
    assert forall|s2: LayerSel, bank: usize, line: u64| #[trigger] mshr_has(h2, s2, bank, line) == mshr_has(h0, s2, bank, line) by {
        assert(mshr_has(h2, s2, bank, line) == mshr_has(h, s2, bank, line));
        assert(mshr_has(h, s2, bank, line) == mshr_has(h0, s2, bank, line));
    }
}

/// What taking MSHR entries for an access came to: it joined an entry, it
/// was refused, or it holds the entries it made (per level: L0, L1, L2).
pub enum Reservation {
    Merged(GmemIssue),
    Refused(GmemRequest),
    Reserved(GmemRequest, (bool, bool, bool)),
}

impl ClusterGmemGraph {
    pub closed spec fn core_count(&self) -> nat {
        self.cores@.len()
    }

    pub closed spec fn cluster_count(&self) -> nat {
        self.hierarchy.l1@.len()
    }

    /// Completions collected for core `i` and not yet taken, oldest first.
    pub closed spec fn queue(&self, i: int) -> Seq<GmemCompletion> {
        self.cores@[i].completions@
    }

    pub closed spec fn core_stat(&self, i: int) -> GmemCounters {
        self.cores@[i].stats@
    }

    pub closed spec fn core_next_id(&self, i: int) -> u64 {
        self.cores@[i].next_id
    }

    /// The node where core `i`'s requests enter the graph.
    pub closed spec fn core_ingress(&self, i: int) -> NodeId {
        self.cores@[i].ingress_node
    }

    /// The node core `i`'s completions return to.
    pub closed spec fn core_return(&self, i: int) -> NodeId {
        self.cores@[i].return_node
    }

    /// The graph of the model.
    pub closed spec fn graph_spec(&self) -> GmemGraph {
        self.graph
    }

    /// `r` and `post` are what offering `req` to core `core`'s entry node at
    /// `now` gives: refused as full when the node is full, as busy until
    /// the end of its warm-up while it warms up, else accepted.
    pub open spec fn ingress_outcome(&self, post: &Self, core: int, now: Cycle, req: GmemRequest, r: GmemResult<GmemIssue>) -> bool {
        let node = self.core_ingress(core) as int;
        let q = self.graph_spec().node_at(node).server_spec();
        let q2 = post.graph_spec().node_at(node).server_spec();
        &&& q.is_full() ==> (r matches Err(e) && e.reason == GmemRejectReason::QueueFull && q.refused_full(&q2))
        &&& !q.is_full() && q.is_warming(now) ==> (r matches Err(e) && e.reason == GmemRejectReason::Busy
            && e.retry_at == normalize_retry_spec(now, q.warmup()) && q.refused_busy(&q2))
        &&& !q.is_full() && !q.is_warming(now) ==> (r matches Ok(i) && q.accepted(
            &q2,
            now,
            CoreFlowPayload::Gmem(req),
            req.bytes,
            i.ticket,
        ))
    }

    /// Banks of each L1.
    pub closed spec fn l1_bank_spec(&self) -> usize {
        self.l1_banks
    }

    /// `request` with the line it touches at L2 and its L1 and L2 banks,
    /// hashed from its lines.
    pub open spec fn routed_access(&self, request: GmemRequest, lines: (u64, u64, u64)) -> GmemRequest {
        let l1b: u64 = if self.l1_bank_spec() >= 1 {
            self.l1_bank_spec() as u64
        } else {
            1
        };
        let l2n = self.hierarchy_spec().l2.banks@.len();
        let l2b: u64 = if l2n >= 1 {
            l2n as u64
        } else {
            1
        };
        GmemRequest {
            line_addr: lines.2,
            l1_bank: bank_for_spec(lines.1, l1b, L1_BANK_SEED),
            l2_bank: bank_for_spec(lines.2, l2b, L2_BANK_SEED),
            ..request
        }
    }

    /// What the model answers an access `request` (already carrying its
    /// core and id) from core `core` at `now`: its probe gives `q`; the
    /// MSHRs merge it (accepted), refuse it (full), or let it on to the
    /// core's entry node, which decides.
    pub open spec fn access_answered(&self, post: &Self, core: usize, now: Cycle, request: GmemRequest, r: GmemResult<GmemIssue>) -> bool {
        let policy = self.policy_spec();
        let lines = access_lines(policy, request.addr);
        let q = probed_request(self.hierarchy_spec(), policy, core, self.routed_access(request, lines), lines);
        let v = mshr_verdict(self.hierarchy_spec(), policy.l0_enabled, core, q, lines);
        &&& v == MshrVerdict::Merge ==> (r matches Ok(i) && i.ticket.issued() == now && i.ticket.ready()
            == merge_ready(self.hierarchy_spec(), miss_slot(policy.l0_enabled, core, q, lines), now)
            && i.ticket.size() == q.bytes)
        &&& v == MshrVerdict::Full ==> (r matches Err(e) && e.reason == GmemRejectReason::QueueFull)
        &&& v == MshrVerdict::Reserve ==> self.ingress_outcome(post, core as int, now, q, r)
        &&& v == MshrVerdict::Reserve && r is Ok ==> took_entries(self.hierarchy_spec(), post.hierarchy_spec(), policy.l0_enabled, core, q, lines)
    }

    pub closed spec fn policy_spec(&self) -> GmemPolicyConfig {
        self.policy
    }

    pub closed spec fn last_tick_spec(&self) -> Cycle {
        self.last_tick
    }

    pub closed spec fn wf(&self) -> bool {
        &&& self.graph.wf()
        &&& self.hierarchy.wf()
        &&& forall|i: int|
            0 <= i < self.cores@.len() ==> (#[trigger] self.cores@[i]).ingress_node < self.graph.node_count()
                && self.cores@[i].return_node < self.graph.node_count()
        &&& forall|i: int, j: int|
            0 <= i < self.cores@.len() && 0 <= j < self.cores@.len() && i != j ==> #[trigger] self.cores@[i].return_node
                != #[trigger] self.cores@[j].return_node
    }

    /// `post` has the same cores and clusters; only core `c`'s queue,
    /// counters and id may differ.
    pub open spec fn others_kept(&self, post: &Self, c: int) -> bool {
        &&& post.core_count() == self.core_count()
        &&& post.cluster_count() == self.cluster_count()
        &&& post.policy_spec() == self.policy_spec()
        &&& post.last_tick_spec() == self.last_tick_spec()
        &&& forall|i: int|
            0 <= i < self.core_count() && i != c ==> #[trigger] post.queue(i) == self.queue(i)
                && post.core_stat(i) == self.core_stat(i) && post.core_next_id(i) == self.core_next_id(i)
    }

    /// The global-memory requests that reached the return nodes of the
    /// first `c` cores in graph `g` by `now`, core by core and oldest first
    /// within a core, each with its ticket's ready cycle.
    pub open spec fn returns_upto(&self, g: GmemGraph, c: int, now: Cycle) -> Seq<(GmemRequest, Cycle)>
        decreases c,
    {
        if c <= 0 {
            Seq::empty()
        } else {
            self.returns_upto(g, c - 1, now) + gmem_returns(g.node_at(self.core_return(c - 1) as int).visible(now))
        }
    }

    /// A tick at `now` took `self` to `post`: the graph ticked to `g1`;
    /// every request that reached a core's return node there (core by
    /// core) completed, each followed by the requests merged into the MSHR
    /// entry it released (`ms[j]`, read from hierarchy `hs[j]`: the first
    /// is the hierarchy at the start; the later ones, left by the earlier
    /// completions, are not pinned here); and each core's queue gained the
    /// completions of its own requests among them, in that order.
    pub open spec fn tick_gathered(
        &self,
        post: &Self,
        g1: GmemGraph,
        ms: Seq<Seq<GmemRequest>>,
        hs: Seq<GmemHierarchy>,
        now: Cycle,
    ) -> bool {
        let rets = self.returns_upto(g1, self.core_count() as int, now);
        &&& self.graph_spec().ticked_to(&g1, now)
        &&& ms.len() == rets.len()
        &&& hs.len() == rets.len()
        &&& rets.len() > 0 ==> hs[0] == self.hierarchy_spec()
        &&& forall|j: int| 0 <= j < rets.len() ==> #[trigger] ms[j] == merged_of(hs[j], self.policy_spec(), rets[j].0)
        &&& self.queues_gained(post, expand(rets, ms), now)
    }

    /// See `tick_gathered`.
    pub open spec fn tick_collected(&self, post: &Self, now: Cycle) -> bool {
        exists|g1: GmemGraph, ms: Seq<Seq<GmemRequest>>, hs: Seq<GmemHierarchy>| #[trigger] self.tick_gathered(post, g1, ms, hs, now)
    }

    proof fn lemma_returns_same(a: &Self, b: &Self, g: GmemGraph, c: int, now: Cycle)
        requires
            0 <= c <= a.core_count(),
            forall|i: int| 0 <= i < a.core_count() ==> #[trigger] b.core_return(i) == a.core_return(i),
        ensures
            b.returns_upto(g, c, now) == a.returns_upto(g, c, now),
        decreases c,
    {
        if c > 0 {
            Self::lemma_returns_same(a, b, g, c - 1, now);
        }
    }

    /// Every core's queue of `post` is its queue in `self` followed by the
    /// completions, stamped `now`, of the requests of `items` that belong
    /// to it, in order.
    pub open spec fn queues_gained(&self, post: &Self, items: Seq<(GmemRequest, Cycle)>, now: Cycle) -> bool {
        &&& post.core_count() == self.core_count()
        &&& forall|i: int|
            0 <= i < self.core_count() ==> {
                &&& (#[trigger] post.queue(i)).len() >= self.queue(i).len()
                &&& post.queue(i).take(self.queue(i).len() as int) == self.queue(i)
                &&& completions_match(post.queue(i).skip(self.queue(i).len() as int), for_core(i, items), now)
            }
    }

    proof fn lemma_gained_refl(a: &Self, now: Cycle)
        ensures
            a.queues_gained(a, Seq::empty(), now),
    {
        assert forall|i: int| 0 <= i < a.core_count() implies {
            &&& (#[trigger] a.queue(i)).len() >= a.queue(i).len()
            &&& a.queue(i).take(a.queue(i).len() as int) == a.queue(i)
            &&& completions_match(a.queue(i).skip(a.queue(i).len() as int), for_core(i, Seq::empty()), now)
        } by {
            assert(a.queue(i).take(a.queue(i).len() as int) =~= a.queue(i));
            assert(a.queue(i).skip(a.queue(i).len() as int) =~= Seq::<GmemCompletion>::empty());
        }
    }

    proof fn lemma_gained_trans(a: &Self, b: &Self, c: &Self, x: Seq<(GmemRequest, Cycle)>, y: Seq<(GmemRequest, Cycle)>, now: Cycle)
        requires
            a.queues_gained(b, x, now),
            b.queues_gained(c, y, now),
        ensures
            a.queues_gained(c, x + y, now),
    {
        assert forall|i: int| 0 <= i < a.core_count() implies {
            &&& (#[trigger] c.queue(i)).len() >= a.queue(i).len()
            &&& c.queue(i).take(a.queue(i).len() as int) == a.queue(i)
            &&& completions_match(c.queue(i).skip(a.queue(i).len() as int), for_core(i, x + y), now)
        } by {
            let qa = a.queue(i);
            let qb = b.queue(i);
            let qc = c.queue(i);
            assert(qb.len() >= qa.len());
            assert(qc.len() >= qb.len());
            assert(qc.take(qa.len() as int) =~= qb.take(qa.len() as int));
            lemma_for_core_concat(i, x, y);
            lemma_match_concat(qb.skip(qa.len() as int), for_core(i, x), qc.skip(qb.len() as int), for_core(i, y), now);
            assert(qc.skip(qa.len() as int) =~= qb.skip(qa.len() as int) + qc.skip(qb.len() as int));
        }
    }

    /// What the queues gained matches requests alike field by field.
    proof fn lemma_gained_alike(a: &Self, b: &Self, x: Seq<(GmemRequest, Cycle)>, y: Seq<(GmemRequest, Cycle)>, now: Cycle)
        requires
            a.queues_gained(b, x, now),
            x.len() == y.len(),
            forall|j: int| 0 <= j < x.len() ==> (#[trigger] x[j]).0.same_as(&y[j].0) && x[j].1 == y[j].1,
        ensures
            a.queues_gained(b, y, now),
    {
        assert forall|i: int| 0 <= i < a.core_count() implies {
            &&& (#[trigger] b.queue(i)).len() >= a.queue(i).len()
            &&& b.queue(i).take(a.queue(i).len() as int) == a.queue(i)
            &&& completions_match(b.queue(i).skip(a.queue(i).len() as int), for_core(i, y), now)
        } by {
            lemma_for_core_alike(i, x, y);
            let cs = b.queue(i).skip(a.queue(i).len() as int);
            assert(completions_match(cs, for_core(i, x), now));
            assert forall|j: int| 0 <= j < cs.len() implies (#[trigger] cs[j]).request.same_as(&for_core(i, y)[j].0)
                && cs[j].ticket_ready_at == for_core(i, y)[j].1 && cs[j].completed_at == now by {
                assert(cs[j].request.same_as(&for_core(i, x)[j].0));
                assert(for_core(i, x)[j].0.same_as(&for_core(i, y)[j].0));
            }
        }
    }

    /// Queues that are the same gain nothing more.
    proof fn lemma_gained_same(a: &Self, b: &Self, c: &Self, x: Seq<(GmemRequest, Cycle)>, now: Cycle)
        requires
            a.queues_gained(b, x, now),
            c.core_count() == b.core_count(),
            forall|i: int| 0 <= i < b.core_count() ==> #[trigger] c.queue(i) == b.queue(i),
        ensures
            a.queues_gained(c, x, now),
    {
        assert forall|i: int| 0 <= i < a.core_count() implies {
            &&& (#[trigger] c.queue(i)).len() >= a.queue(i).len()
            &&& c.queue(i).take(a.queue(i).len() as int) == a.queue(i)
            &&& completions_match(c.queue(i).skip(a.queue(i).len() as int), for_core(i, x), now)
        } by {
            assert(c.queue(i) == b.queue(i));
        }
    }

    /// Every core's queue of `post` is its queue in `self` with completions
    /// stamped `now` appended; nothing else a caller sees differs.
    pub open spec fn appended_at(&self, post: &Self, now: Cycle) -> bool {
        &&& post.core_count() == self.core_count()
        &&& post.cluster_count() == self.cluster_count()
        &&& post.policy_spec() == self.policy_spec()
        &&& forall|i: int| 0 <= i < self.core_count() ==> grew(#[trigger] self.queue(i), post.queue(i), now)
    }

    /// Build the model of `num_clusters` clusters of `cores_per_cluster`
    /// cores: the graph, one state per core with no completion, zero
    /// counters and id 0, and empty caches sized by the policy (the per-core
    /// L0 caches only when the policy enables them).
    pub fn new(config: GmemFlowConfig, num_clusters: usize, cores_per_cluster: usize) -> (r: Self)
        requires
            config.buildable(),
        ensures
            r.wf(),
            r.cluster_count() == num_clusters,
            r.policy_spec() == config.policy,
            r.last_tick_spec() == u64::MAX,
            forall|i: int|
                0 <= i < r.core_count() ==> (#[trigger] r.queue(i)).len() == 0 && r.core_next_id(i) == 0
                    && r.core_stat(i) == zero_counters(),
            r.core_count() == num_clusters * cores_per_cluster,
            r.hierarchy_spec().l0@.len() == if config.policy.l0_enabled {
                if num_clusters * cores_per_cluster > usize::MAX {
                    usize::MAX as int
                } else {
                    num_clusters * cores_per_cluster
                }
            } else {
                0
            },
            forall|k: int|
                0 <= k < r.hierarchy_spec().l0@.len() ==> fresh_layer(
                    #[trigger] r.hierarchy_spec().l0@[k],
                    config.levels@[0].mshr.queue_capacity,
                ) && r.hierarchy_spec().l0@[k].banks@.len() == 1 && r.hierarchy_spec().l0@[k].counters()
                    == zero_counters(),
            forall|k: int|
                0 <= k < r.hierarchy_spec().l1@.len() ==> fresh_layer(
                    #[trigger] r.hierarchy_spec().l1@[k],
                    config.levels@[1].mshr.queue_capacity,
                ) && r.hierarchy_spec().l1@[k].banks@.len() == level_banks(config.levels@[1])
                    && r.hierarchy_spec().l1@[k].counters() == zero_counters(),
            fresh_layer(r.hierarchy_spec().l2, config.levels@[2].mshr.queue_capacity),
            r.hierarchy_spec().l2.banks@.len() == level_banks(config.levels@[2]),
            r.hierarchy_spec().l2.counters() == zero_counters(),
            forall|i: int| 0 <= i < r.core_count() ==> core_configured(r.graph_spec(), #[trigger] r.core_ingress(i), config),
            forall|i: int| 0 <= i < r.core_count() ==> core_links_present(r.graph_spec(), #[trigger] r.core_ingress(i), config.policy.l0_enabled),
            forall|i: int| 0 <= i < r.core_count() ==> r.core_return(i) == #[trigger] r.core_ingress(i) + 5,
    {
        let (graph, core_nodes) = build_cluster_graph(&config, num_clusters, cores_per_cluster);
        let mut cores: Vec<ClusterCoreState> = Vec::new();
        let mut i: usize = 0;
        while i < core_nodes.len()
            invariant
                graph.wf(),
                forall|k: int|
                    0 <= k < core_nodes@.len() ==> (#[trigger] core_nodes@[k]).ingress_node < graph.node_count()
                        && core_nodes@[k].return_node < graph.node_count(),
                i <= core_nodes@.len(),
                cores@.len() == i,
                forall|k: int| 0 <= k < core_nodes@.len() ==> core_configured(graph, #[trigger] core_nodes@[k].ingress_node, config),
                forall|k: int| 0 <= k < core_nodes@.len() ==> core_links_present(graph, #[trigger] core_nodes@[k].ingress_node, config.policy.l0_enabled),
                forall|k: int| 0 <= k < core_nodes@.len() ==> (#[trigger] core_nodes@[k]).return_node == core_nodes@[k].ingress_node + 5,
                forall|k: int, j: int| 0 <= k < j < core_nodes@.len() ==> #[trigger] core_nodes@[k].return_node < #[trigger] core_nodes@[j].return_node,
                forall|k: int|
                    0 <= k < i ==> (#[trigger] cores@[k]).ingress_node < graph.node_count()
                        && cores@[k].ingress_node == core_nodes@[k].ingress_node
                        && cores@[k].return_node == core_nodes@[k].return_node
                        && cores@[k].return_node < graph.node_count() && cores@[k].completions@.len() == 0
                        && cores@[k].next_id == 0 && cores@[k].stats@ == zero_counters(),
            decreases core_nodes@.len() - i,
        {
            let node = core_nodes[i];
            cores.push(
                ClusterCoreState {
                    ingress_node: node.ingress_node,
                    return_node: node.return_node,
                    completions: VecDeque::new(),
                    stats: GmemStats::default(),
                    next_id: 0,
                },
            );
            i = i + 1;
        }
        assert forall|k: int, j: int|
            0 <= k < cores@.len() && 0 <= j < cores@.len() && k != j implies #[trigger] cores@[k].return_node
                != #[trigger] cores@[j].return_node by {
            if k < j {
                assert(core_nodes@[k].return_node < core_nodes@[j].return_node);
            } else {
                assert(core_nodes@[j].return_node < core_nodes@[k].return_node);
            }
        }
        let policy = config.policy;
        assert(crate::timeflow::gmem::graph_build::level_buildable(config.levels@[0]));
        let l0_mshr = config.levels[0].mshr.queue_capacity;
        let l1_mshr = config.levels[1].mshr.queue_capacity;
        let l2_mshr = config.levels[2].mshr.queue_capacity;
        let l1_banks: usize = if config.levels[1].banks >= 1 {
            config.levels[1].banks
        } else {
            1
        };
        let l2_banks: usize = if config.levels[2].banks >= 1 {
            config.levels[2].banks
        } else {
            1
        };
        let total_cores = sat_mul_usize(num_clusters, cores_per_cluster);
        let mut l0: Vec<CacheLayer> = Vec::new();
        if policy.l0_enabled {
            let mut k: usize = 0;
            while k < total_cores
                invariant
                    crate::timeflow::gmem::graph_build::fits(policy.l0_sets, policy.l0_ways),
                    k <= total_cores,
                    l0@.len() == k,
                    crate::timeflow::gmem::cluster::layers_wf(l0@),
                    forall|j: int|
                        0 <= j < k ==> fresh_layer(#[trigger] l0@[j], l0_mshr) && l0@[j].banks@.len() == 1
                            && l0@[j].counters() == zero_counters(),
                decreases total_cores - k,
            {
                let layer = CacheLayer::new(CacheTagArray::new(policy.l0_sets, policy.l0_ways), 1, l0_mshr);
                proof {
                    lemma_fresh_layer_zero(layer, l0_mshr);
                }
                l0.push(layer);
                k = k + 1;
            }
        }
        let mut l1: Vec<CacheLayer> = Vec::new();
        let mut k: usize = 0;
        while k < num_clusters
            invariant
                crate::timeflow::gmem::graph_build::fits(policy.l1_sets, policy.l1_ways),
                k <= num_clusters,
                l1@.len() == k,
                crate::timeflow::gmem::cluster::layers_wf(l1@),
                forall|j: int|
                    0 <= j < k ==> fresh_layer(#[trigger] l1@[j], l1_mshr) && l1@[j].banks@.len() == l1_banks
                        && l1@[j].counters() == zero_counters(),
            decreases num_clusters - k,
        {
            let layer = CacheLayer::new(CacheTagArray::new(policy.l1_sets, policy.l1_ways), l1_banks, l1_mshr);
            proof {
                lemma_fresh_layer_zero(layer, l1_mshr);
            }
            l1.push(layer);
            k = k + 1;
        }
        let l2 = CacheLayer::new(CacheTagArray::new(policy.l2_sets, policy.l2_ways), l2_banks, l2_mshr);
        proof {
            lemma_fresh_layer_zero(l2, l2_mshr);
        }
        let hierarchy = GmemHierarchy::new(l0, l1, l2);
        ClusterGmemGraph { graph, cores, policy, l1_banks, hierarchy, last_tick: u64::MAX }
    }

    /// Deepest level the request missed at (the L0 counts only when enabled).
    fn miss_level(&self, request: &GmemRequest) -> (r: MissLevel)
        ensures
            r == deepest_miss(self.policy_spec().l0_enabled, *request),
    {
        if self.policy.l0_enabled {
            if request.l0_hit {
                MissLevel::NoMiss
            } else if request.l1_hit {
                MissLevel::L0
            } else if request.l2_hit {
                MissLevel::L1
            } else {
                MissLevel::L2
            }
        } else if request.l1_hit {
            MissLevel::NoMiss
        } else if request.l2_hit {
            MissLevel::L1
        } else {
            MissLevel::L2
        }
    }

    /// Refuse a request as full for the next cycle.
    fn refuse_full(request: GmemRequest, now: Cycle) -> (r: GmemResult<GmemIssue>)
        ensures
            r matches Err(e) && e.reason == GmemRejectReason::QueueFull && e.retry_at == sat_add(
                now as int,
                1,
            ) && e.request == request,
    {
        Err(GmemReject { request, retry_at: now.saturating_add(1), reason: GmemRejectReason::QueueFull })
    }

    /// Count an issue for core `core_id` and move its next id past
    /// `request_id`.
    fn record_issue_stats(&mut self, core_id: usize, request_id: u64, bytes: u32)
        requires
            old(self).wf(),
        ensures
            old(self).hierarchy_spec().lines_kept(&final(self).hierarchy_spec()),
            final(self).wf(),
            old(self).others_kept(final(self), core_id as int),
            final(self).graph_spec() == old(self).graph_spec(),
            final(self).hierarchy_spec() == old(self).hierarchy_spec(),
            forall|i: int| 0 <= i < old(self).core_count() ==> #[trigger] final(self).core_ingress(i) == old(self).core_ingress(i),
            core_id < old(self).core_count() ==> final(self).core_stat(core_id as int) == old(self).core_stat(
                core_id as int,
            ).after_issue(bytes) && final(self).queue(core_id as int) == old(self).queue(core_id as int)
                && final(self).core_next_id(core_id as int) == next_after(
                old(self).core_next_id(core_id as int),
                request_id,
            ),
    {
        if core_id < self.cores.len() {
            if request_id >= self.cores[core_id].next_id {
                self.cores[core_id].next_id = request_id.saturating_add(1);
            }
            self.cores[core_id].stats.record_issue(bytes);
        }
    }

    /// Count a refusal for want of room at core `core_id`.
    fn record_core_full(&mut self, core_id: usize)
        requires
            old(self).wf(),
        ensures
            old(self).hierarchy_spec().lines_kept(&final(self).hierarchy_spec()),
            final(self).graph_spec() == old(self).graph_spec(),
            forall|i: int| 0 <= i < old(self).core_count() ==> #[trigger] final(self).core_ingress(i) == old(self).core_ingress(i),
            final(self).wf(),
            old(self).others_kept(final(self), core_id as int),
            core_id < old(self).core_count() ==> final(self).core_stat(core_id as int) == old(self).core_stat(
                core_id as int,
            ).after_queue_full() && final(self).queue(core_id as int) == old(self).queue(core_id as int)
                && final(self).core_next_id(core_id as int) == old(self).core_next_id(core_id as int),
    {
        if core_id < self.cores.len() {
            self.cores[core_id].stats.record_queue_full_reject();
        }
    }

    /// Answer for a request that joins an MSHR entry: issued now, ready when
    /// the entry is.
    fn issue_merge(&mut self, core_id: usize, request_id: u64, issued_at: Cycle, ready_at: Cycle, bytes: u32) -> (r:
        GmemIssue)
        requires
            old(self).wf(),
        ensures
            old(self).hierarchy_spec().lines_kept(&final(self).hierarchy_spec()),
            final(self).graph_spec() == old(self).graph_spec(),
            forall|i: int| 0 <= i < old(self).core_count() ==> #[trigger] final(self).core_ingress(i) == old(self).core_ingress(i),
            final(self).wf(),
            old(self).others_kept(final(self), core_id as int),
            core_id < old(self).core_count() ==> final(self).core_stat(core_id as int) == old(self).core_stat(
                core_id as int,
            ).after_issue(bytes) && final(self).queue(core_id as int) == old(self).queue(core_id as int)
                && final(self).core_next_id(core_id as int) == next_after(
                old(self).core_next_id(core_id as int),
                request_id,
            ),
            r.request_id == request_id,
            r.ticket.issued() == issued_at,
            r.ticket.ready() == ready_at,
            r.ticket.size() == bytes,
    {
        self.record_issue_stats(core_id, request_id, bytes);
        GmemIssue { request_id, ticket: Ticket::new(issued_at, ready_at, bytes) }
    }

    /// Put the request into core `core_id`'s entry node.
    fn issue_to_graph(&mut self, core_id: usize, now: Cycle, request: GmemRequest) -> (r: GmemResult<GmemIssue>)
        requires
            old(self).wf(),
            core_id < old(self).core_count(),
        ensures
            final(self).wf(),
            old(self).others_kept(final(self), core_id as int),
            final(self).queue(core_id as int) == old(self).queue(core_id as int),
            r matches Ok(i) ==> i.request_id == request.id && final(self).core_stat(core_id as int) == old(
                self,
            ).core_stat(core_id as int).after_issue(request.bytes) && final(self).core_next_id(core_id as int)
                == next_after(old(self).core_next_id(core_id as int), request.id),
            r matches Err(e) ==> e.request == request && final(self).core_next_id(core_id as int) == old(
                self,
            ).core_next_id(core_id as int) && (e.reason == GmemRejectReason::QueueFull ==> e.retry_at
                == sat_add(now as int, 1) && final(self).core_stat(core_id as int) == old(self).core_stat(
                core_id as int,
            ).after_queue_full()) && (e.reason == GmemRejectReason::Busy ==> final(self).core_stat(
                core_id as int,
            ) == old(self).core_stat(core_id as int).after_busy()),
            old(self).ingress_outcome(final(self), core_id as int, now, request, r),
            final(self).hierarchy_spec() == old(self).hierarchy_spec(),
    {
        let request_id = request.id;
        let bytes = request.bytes;
        let ingress = self.cores[core_id].ingress_node;
        let ghost req0 = request;
        match self.graph.try_put(ingress, now, ServiceRequest::new(CoreFlowPayload::Gmem(request), bytes)) {
            Ok(ticket) => {
                self.record_issue_stats(core_id, request_id, bytes);
                Ok(GmemIssue { request_id, ticket })
            },
            Err(bp) => match bp {
                Backpressure::Busy { request, available_at } => {
                    self.cores[core_id].stats.record_busy_reject();
                    let retry_at = normalize_retry(now, available_at);
                    let request = extract_gmem_request(request);
                    Err(GmemReject { request, retry_at, reason: GmemRejectReason::Busy })
                },
                Backpressure::QueueFull { request, .. } => {
                    self.cores[core_id].stats.record_queue_full_reject();
                    let request = extract_gmem_request(request);
                    Err(GmemReject { request, retry_at: now.saturating_add(1), reason: GmemRejectReason::QueueFull })
                },
            },
        }
    }

    /// Drop the MSHR entries this request just made.
    fn rollback_mshrs(
        &mut self,
        core_id: usize,
        cluster_id: usize,
        l1_bank: usize,
        l2_bank: usize,
        lines: (u64, u64, u64),
        made: (bool, bool, bool),
    )
        requires
            old(self).wf(),
        ensures
            old(self).hierarchy_spec().lines_kept(&final(self).hierarchy_spec()),
            final(self).graph_spec() == old(self).graph_spec(),
            forall|i: int| 0 <= i < old(self).core_count() ==> #[trigger] final(self).core_ingress(i) == old(self).core_ingress(i),
            final(self).wf(),
            old(self).others_kept(final(self), -1),
            old(self).hierarchy_spec().same_layers(&final(self).hierarchy_spec()),
            forall|j: int|
                0 <= j < old(self).hierarchy_spec().l0@.len() && j != core_id ==> #[trigger] final(self).hierarchy_spec().l0@[j] == old(self).hierarchy_spec().l0@[j],
            forall|j: int|
                0 <= j < old(self).hierarchy_spec().l1@.len() && j != cluster_id ==> #[trigger] final(self).hierarchy_spec().l1@[j] == old(self).hierarchy_spec().l1@[j],
            released_at(old(self).hierarchy_spec(), final(self).hierarchy_spec(), LayerSel::L0(core_id), 0, lines.0, old(self).policy_spec().l0_enabled && made.0),
            released_at(old(self).hierarchy_spec(), final(self).hierarchy_spec(), LayerSel::L1(cluster_id), l1_bank, lines.1, made.1),
            released_at(old(self).hierarchy_spec(), final(self).hierarchy_spec(), LayerSel::L2, l2_bank, lines.2, made.2),
    {
        let ghost h0 = self.hierarchy;
        let l0_count = self.hierarchy.l0.len();
        let l1_count = self.hierarchy.l1.len();
        if self.policy.l0_enabled && made.0 {
            let _ = self.hierarchy.remove_entry_merged(LayerSel::L0(core_id), 0, lines.0);
        }
        let ghost h1 = self.hierarchy;
        if made.1 {
            let _ = self.hierarchy.remove_entry_merged(LayerSel::L1(cluster_id), l1_bank, lines.1);
        }
        let ghost h2 = self.hierarchy;
        if made.2 {
            let _ = self.hierarchy.remove_entry_merged(LayerSel::L2, l2_bank, lines.2);
        }
        proof {
            assert forall|j: int| 0 <= j < h0.l0@.len() && j != core_id implies #[trigger] self.hierarchy.l0@[j]
                == h0.l0@[j] by {
                assert(j < l0_count);
                assert(LayerSel::L0(j as usize) != LayerSel::L0(core_id));
                assert(h1.l0@[j] == h0.l0@[j]);
                assert(h2.l0@[j] == h1.l0@[j]);
            }
            assert forall|j: int| 0 <= j < h0.l1@.len() && j != cluster_id implies #[trigger] self.hierarchy.l1@[j]
                == h0.l1@[j] by {
                assert(j < l1_count);
                assert(LayerSel::L1(j as usize) != LayerSel::L1(cluster_id));
                assert(h1.l1@[j] == h0.l1@[j]);
                assert(h2.l1@[j] == h1.l1@[j]);
            }
            if h0.has_layer(LayerSel::L0(core_id)) {
                assert(h2.l0@[core_id as int] == h1.l0@[core_id as int]);
                assert(self.hierarchy.l0@[core_id as int] == h2.l0@[core_id as int]);
            }
            if h0.has_layer(LayerSel::L1(cluster_id)) {
                assert(h1.l1@[cluster_id as int] == h0.l1@[cluster_id as int]);
                assert(self.hierarchy.l1@[cluster_id as int] == h2.l1@[cluster_id as int]);
            }
        }
    }

    /// Probe the tags for an access down to its first hit, counting each
    /// probe at its bank, and decide the writebacks of the levels it misses.
    #[verifier::spinoff_prover]
    #[verifier::rlimit(60)]
    fn probe_levels(&mut self, core_id: usize, request: GmemRequest, lines: (u64, u64, u64)) -> (r: GmemRequest)
        requires
            old(self).wf(),
        ensures
            old(self).hierarchy_spec().lines_kept(&final(self).hierarchy_spec()),
            final(self).wf(),
            old(self).others_kept(final(self), -1),
            r == probed_request(old(self).hierarchy_spec(), old(self).policy_spec(), core_id, request, lines),
            mshrs_kept(old(self).hierarchy_spec(), final(self).hierarchy_spec()),
            final(self).graph_spec() == old(self).graph_spec(),
            forall|i: int| 0 <= i < old(self).core_count() ==> #[trigger] final(self).core_ingress(i) == old(self).core_ingress(i),
    {
        let ghost h0 = self.hierarchy;
        proof {
            reveal(mshrs_kept);
            assert(mshrs_kept(h0, h0));
        }
        let mut request = request;
        let policy = self.policy;
        let (l0_line, l1_line, l2_line) = lines;
        let cluster_id = request.cluster_id;
        let l1_bank = request.l1_bank;
        let l2_bank = request.l2_bank;
        let bytes = request.bytes;
        let l0_hit = if policy.l0_enabled && core_id < self.hierarchy.l0.len() {
            let ghost ha = self.hierarchy;
            let hit = self.hierarchy.probe(LayerSel::L0(core_id), l0_line);
            let ghost hb = self.hierarchy;
            proof {
                lemma_mshrs_step(h0, ha, hb, LayerSel::L0(core_id));
            }
            self.hierarchy.record_access(LayerSel::L0(core_id), 0, bytes, hit);
            proof {
                lemma_mshrs_step(h0, hb, self.hierarchy, LayerSel::L0(core_id));
            }
            hit
        } else {
            false
        };
        request.l0_hit = l0_hit;
        if l0_hit {
            request.l1_hit = false;
            request.l2_hit = false;
            request.l1_writeback = false;
            request.l2_writeback = false;
            return request;
        }
        let ghost hc = self.hierarchy;
        let l1_hit = self.hierarchy.probe(LayerSel::L1(cluster_id), l1_line);
        request.l1_hit = l1_hit;
        let ghost hd = self.hierarchy;
        proof {
            lemma_mshrs_step(h0, hc, hd, LayerSel::L1(cluster_id));
        }
        self.hierarchy.record_access(LayerSel::L1(cluster_id), l1_bank, bytes, l1_hit);
        proof {
            lemma_mshrs_step(h0, hd, self.hierarchy, LayerSel::L1(cluster_id));
        }
        if l1_hit {
            request.l2_hit = false;
        } else {
            let ghost he = self.hierarchy;
            let l2_hit = self.hierarchy.probe(LayerSel::L2, l2_line);
            request.l2_hit = l2_hit;
            let ghost hf = self.hierarchy;
            proof {
                lemma_mshrs_step(h0, he, hf, LayerSel::L2);
            }
            self.hierarchy.record_access(LayerSel::L2, l2_bank, bytes, l2_hit);
            proof {
                lemma_mshrs_step(h0, hf, self.hierarchy, LayerSel::L2);
            }
        }
        if !request.l1_hit {
            let l1_key = l1_line ^ (cluster_id as u64).wrapping_mul(0xc2b2_ae3d_27d4_eb4f) ^ policy.seed;
            request.l1_writeback = hash_rule_holds(policy.l1_writeback, l1_key ^ 0xD4D4_D4D4_D4D4_D4D4);
        } else {
            request.l1_writeback = false;
        }
        if !request.l1_hit && !request.l2_hit {
            let l2_key = l2_line ^ policy.seed;
            request.l2_writeback = hash_rule_holds(policy.l2_writeback, l2_key ^ 0xE5E5_E5E5_E5E5_E5E5);
        } else {
            request.l2_writeback = false;
        }
        request
    }

    /// Refuse the request as full after dropping the MSHR entries it made,
    /// counting the refusal at `bank` of `layer` when given and at the core.
    fn give_up(
        &mut self,
        core_id: usize,
        request: GmemRequest,
        counted_at: Option<(LayerSel, usize)>,
        lines: (u64, u64, u64),
        made: (bool, bool, bool),
    ) -> (r: Reservation)
        requires
            old(self).wf(),
        ensures
            old(self).hierarchy_spec().lines_kept(&final(self).hierarchy_spec()),
            final(self).graph_spec() == old(self).graph_spec(),
            forall|i: int| 0 <= i < old(self).core_count() ==> #[trigger] final(self).core_ingress(i) == old(self).core_ingress(i),
            final(self).wf(),
            old(self).others_kept(final(self), core_id as int),
            core_id < old(self).core_count() ==> final(self).queue(core_id as int) == old(self).queue(core_id as int)
                && final(self).core_next_id(core_id as int) == old(self).core_next_id(core_id as int)
                && final(self).core_stat(core_id as int) == old(self).core_stat(core_id as int).after_queue_full(),
            r == Reservation::Refused(request),
    {
        let ghost s0 = *self;
        let cluster_id = request.cluster_id;
        self.rollback_mshrs(core_id, cluster_id, request.l1_bank, request.l2_bank, lines, made);
        let ghost s1 = *self;
        match counted_at {
            Some((layer, bank)) => self.record_layer_full(layer, bank),
            None => {},
        }
        let ghost s2 = *self;
        proof {
            Self::lemma_kept_chain(&s0, &s1, &s2, -1);
        }
        self.record_core_full(core_id);
        proof {
            Self::lemma_kept_chain(&s0, &s2, self, core_id as int);
        }
        Reservation::Refused(request)
    }

    /// Count a refusal for want of an MSHR entry at `bank` of `layer`.
    fn record_layer_full(&mut self, layer: LayerSel, bank: usize)
        requires
            old(self).wf(),
        ensures
            old(self).hierarchy_spec().lines_kept(&final(self).hierarchy_spec()),
            final(self).graph_spec() == old(self).graph_spec(),
            forall|i: int| 0 <= i < old(self).core_count() ==> #[trigger] final(self).core_ingress(i) == old(self).core_ingress(i),
            final(self).wf(),
            old(self).others_kept(final(self), -1),
            old(self).hierarchy_spec().changed_only(&final(self).hierarchy_spec(), layer),
            !old(self).hierarchy_spec().has_layer(layer) ==> final(self).hierarchy_spec() == old(self).hierarchy_spec(),
            old(self).hierarchy_spec().has_layer(layer) ==> {
                let l = old(self).hierarchy_spec().layer(layer);
                let l2 = final(self).hierarchy_spec().layer(layer);
                &&& l2.tags == l.tags
                &&& l2.banks@.len() == l.banks@.len()
                &&& forall|j: int| 0 <= j < l.banks@.len() && j != bank ==> #[trigger] l2.banks@[j] == l.banks@[j]
                &&& bank < l.banks@.len() ==> l2.banks@[bank as int].mshr == l.banks@[bank as int].mshr
                    && l2.banks@[bank as int].stats@ == l.banks@[bank as int].stats@.after_queue_full()
            },
    {
        self.hierarchy.record_queue_full_reject(layer, bank);
    }

    proof fn lemma_appended_trans(a: &Self, b: &Self, c: &Self, now: Cycle)
        requires
            a.appended_at(b, now),
            b.appended_at(c, now) || b.others_kept(c, -1),
        ensures
            a.appended_at(c, now),
    {
        assert forall|i: int| 0 <= i < a.core_count() implies grew(#[trigger] a.queue(i), c.queue(i), now) by {
            if b.appended_at(c, now) {
                assert(grew(b.queue(i), c.queue(i), now));
                lemma_grew_trans(a.queue(i), b.queue(i), c.queue(i), now);
            } else {
                assert(c.queue(i) == b.queue(i));
                assert(grew(a.queue(i), b.queue(i), now));
            }
        }
    }

    proof fn lemma_kept_chain(a: &Self, b: &Self, c: &Self, k: int)
        requires
            a.others_kept(b, -1) || a.others_kept(b, k),
            b.others_kept(c, k) || b.others_kept(c, -1),
        ensures
            a.others_kept(c, k),
    {
        assert forall|i: int| 0 <= i < a.core_count() && i != k implies #[trigger] c.queue(i) == a.queue(i)
            && c.core_stat(i) == a.core_stat(i) && c.core_next_id(i) == a.core_next_id(i) by {
            assert(b.queue(i) == a.queue(i));
            assert(c.queue(i) == b.queue(i));
        }
    }

    /// Take the MSHR entries of an access down to the level it missed at
    /// (see `issue`).
    #[verifier::spinoff_prover]
    #[verifier::rlimit(100)]
    fn reserve(&mut self, core_id: usize, now: Cycle, request: GmemRequest, level: MissLevel, lines: (u64, u64, u64)) -> (r:
        Reservation)
        requires
            level == deepest_miss(old(self).policy_spec().l0_enabled, request),
            old(self).wf(),
            core_id < old(self).core_count(),
        ensures
            old(self).hierarchy_spec().lines_kept(&final(self).hierarchy_spec()),
            ({
                let v = mshr_verdict(old(self).hierarchy_spec(), old(self).policy_spec().l0_enabled, core_id, request, lines);
                &&& v == MshrVerdict::Merge ==> r is Merged
                &&& v == MshrVerdict::Full ==> r is Refused
                &&& v == MshrVerdict::Reserve ==> r is Reserved
            }),
            final(self).graph_spec() == old(self).graph_spec(),
            forall|i: int| 0 <= i < old(self).core_count() ==> #[trigger] final(self).core_ingress(i) == old(self).core_ingress(i),
            final(self).wf(),
            old(self).others_kept(final(self), core_id as int),
            final(self).queue(core_id as int) == old(self).queue(core_id as int),
            r matches Reservation::Merged(i) ==> i.ticket.issued() == now && i.ticket.size() == request.bytes
                && i.ticket.ready() == merge_ready(old(self).hierarchy_spec(), miss_slot(old(self).policy_spec().l0_enabled, core_id, request, lines), now),
            r matches Reservation::Merged(i) ==> i.request_id == request.id && final(self).core_stat(
                core_id as int,
            ) == old(self).core_stat(core_id as int).after_issue(request.bytes) && final(self).core_next_id(
                core_id as int,
            ) == next_after(old(self).core_next_id(core_id as int), request.id),
            r matches Reservation::Refused(q) ==> q == request && final(self).core_next_id(core_id as int)
                == old(self).core_next_id(core_id as int) && final(self).core_stat(core_id as int) == old(
                self,
            ).core_stat(core_id as int).after_queue_full(),
            r matches Reservation::Reserved(_, _) ==> took_entries(old(self).hierarchy_spec(), final(self).hierarchy_spec(), old(self).policy_spec().l0_enabled, core_id, request, lines),
            r matches Reservation::Reserved(q, _) ==> q == request && final(self).core_stat(core_id as int)
                == old(self).core_stat(core_id as int) && final(self).core_next_id(core_id as int) == old(
                self,
            ).core_next_id(core_id as int),
    {
        let ghost s0 = *self;
        let (l0_line, l1_line, l2_line) = lines;
        let l0_enabled = self.policy.l0_enabled;
        let l0 = LayerSel::L0(core_id);
        let l1 = LayerSel::L1(request.cluster_id);
        let l1_bank = request.l1_bank;
        let l2_bank = request.l2_bank;
        let id = request.id;
        let bytes = request.bytes;
        let meta = MissMetadata::from_request(&request);
        let mut made = (false, false, false);
        match level {
            MissLevel::NoMiss => {},
            MissLevel::L0 => {
                if self.hierarchy.has_entry(l0, 0, l0_line) {
                    let ready = match self.hierarchy.merge_request(l0, 0, l0_line, request) {
                        Some(at) => at,
                        None => now.saturating_add(1),
                    };
                    { let ghost sa = *self; let m = self.issue_merge(core_id, id, now, ready, bytes); proof { Self::lemma_kept_chain(&s0, &sa, self, core_id as int); } return Reservation::Merged(m); }
                }
                if !self.hierarchy.can_allocate(l0, 0, l0_line) {
                    { let ghost sa = *self; let g = self.give_up(core_id, request, Some((l0, 0)), lines, made); proof { Self::lemma_kept_chain(&s0, &sa, self, core_id as int); } return g; }
                }
                match self.hierarchy.ensure_entry(l0, 0, l0_line, meta) {
                    Ok(m) => {
                        made.0 = m;
                    },
                    Err(_) => {
                        { let ghost sa = *self; let g = self.give_up(core_id, request, None, lines, made); proof { Self::lemma_kept_chain(&s0, &sa, self, core_id as int); } return g; }
                    },
                }
            },
            MissLevel::L1 => {
                if l0_enabled && !self.hierarchy.has_entry(l0, 0, l0_line) {
                    match self.hierarchy.ensure_entry(l0, 0, l0_line, meta) {
                        Ok(m) => {
                            made.0 = m;
                        },
                        Err(_) => {
                            { let ghost sa = *self; let g = self.give_up(core_id, request, None, lines, (false, false, false)); proof { Self::lemma_kept_chain(&s0, &sa, self, core_id as int); } return g; }
                        },
                    }
                }
                if self.hierarchy.has_entry(l1, l1_bank, l1_line) {
                    let ready = match self.hierarchy.merge_request(l1, l1_bank, l1_line, request) {
                        Some(at) => at,
                        None => now.saturating_add(1),
                    };
                    if l0_enabled {
                        self.hierarchy.set_ready_at(l0, 0, l0_line, ready);
                    }
                    { let ghost sa = *self; let m = self.issue_merge(core_id, id, now, ready, bytes); proof { Self::lemma_kept_chain(&s0, &sa, self, core_id as int); } return Reservation::Merged(m); }
                }
                if !self.hierarchy.can_allocate(l1, l1_bank, l1_line) {
                    { let ghost sa = *self; let g = self.give_up(core_id, request, Some((l1, l1_bank)), lines, made); proof { Self::lemma_kept_chain(&s0, &sa, self, core_id as int); } return g; }
                }
                match self.hierarchy.ensure_entry(l1, l1_bank, l1_line, meta) {
                    Ok(m) => {
                        made.1 = m;
                    },
                    Err(_) => {
                        { let ghost sa = *self; let g = self.give_up(core_id, request, None, lines, made); proof { Self::lemma_kept_chain(&s0, &sa, self, core_id as int); } return g; }
                    },
                }
            },
            MissLevel::L2 => {
                if l0_enabled && !self.hierarchy.has_entry(l0, 0, l0_line) {
                    match self.hierarchy.ensure_entry(l0, 0, l0_line, meta) {
                        Ok(m) => {
                            made.0 = m;
                        },
                        Err(_) => {
                            { let ghost sa = *self; let g = self.give_up(core_id, request, None, lines, (false, false, false)); proof { Self::lemma_kept_chain(&s0, &sa, self, core_id as int); } return g; }
                        },
                    }
                }
                if !self.hierarchy.has_entry(l1, l1_bank, l1_line) {
                    match self.hierarchy.ensure_entry(l1, l1_bank, l1_line, meta) {
                        Ok(m) => {
                            made.1 = m;
                        },
                        Err(_) => {
                            { let ghost sa = *self; let g = self.give_up(core_id, request, None, lines, made); proof { Self::lemma_kept_chain(&s0, &sa, self, core_id as int); } return g; }
                        },
                    }
                }
                if self.hierarchy.has_entry(LayerSel::L2, l2_bank, l2_line) {
                    let ready = match self.hierarchy.merge_request(LayerSel::L2, l2_bank, l2_line, request) {
                        Some(at) => at,
                        None => now.saturating_add(1),
                    };
                    self.hierarchy.set_ready_at(l1, l1_bank, l1_line, ready);
                    if l0_enabled {
                        self.hierarchy.set_ready_at(l0, 0, l0_line, ready);
                    }
                    { let ghost sa = *self; let m = self.issue_merge(core_id, id, now, ready, bytes); proof { Self::lemma_kept_chain(&s0, &sa, self, core_id as int); } return Reservation::Merged(m); }
                }
                if !self.hierarchy.can_allocate(LayerSel::L2, l2_bank, l2_line) {
                    { let ghost sa = *self; let g = self.give_up(core_id, request, Some((LayerSel::L2, l2_bank)), lines, made); proof { Self::lemma_kept_chain(&s0, &sa, self, core_id as int); } return g; }
                }
                match self.hierarchy.ensure_entry(LayerSel::L2, l2_bank, l2_line, meta) {
                    Ok(m) => {
                        made.2 = m;
                    },
                    Err(_) => {
                        { let ghost sa = *self; let g = self.give_up(core_id, request, None, lines, made); proof { Self::lemma_kept_chain(&s0, &sa, self, core_id as int); } return g; }
                    },
                }
            },
        }
        Reservation::Reserved(request, made)
    }

    /// Make the MSHR entries of the levels an access missed ready when the
    /// access is.
    fn mark_ready(&mut self, core_id: usize, cluster_id: usize, banks: (usize, usize), level: MissLevel, lines: (u64, u64, u64), ready_at: Cycle)
        requires
            old(self).wf(),
        ensures
            old(self).hierarchy_spec().lines_kept(&final(self).hierarchy_spec()),
            final(self).graph_spec() == old(self).graph_spec(),
            forall|i: int| 0 <= i < old(self).core_count() ==> #[trigger] final(self).core_ingress(i) == old(self).core_ingress(i),
            final(self).wf(),
            old(self).others_kept(final(self), -1),
            old(self).hierarchy_spec().same_layers(&final(self).hierarchy_spec()),
            forall|j: int|
                0 <= j < old(self).hierarchy_spec().l0@.len() && j != core_id ==> #[trigger] final(self).hierarchy_spec().l0@[j] == old(self).hierarchy_spec().l0@[j],
            forall|j: int|
                0 <= j < old(self).hierarchy_spec().l1@.len() && j != cluster_id ==> #[trigger] final(self).hierarchy_spec().l1@[j] == old(self).hierarchy_spec().l1@[j],
            readied_at(old(self).hierarchy_spec(), final(self).hierarchy_spec(), LayerSel::L0(core_id), 0, lines.0, ready_at,
                old(self).policy_spec().l0_enabled && level != MissLevel::NoMiss),
            readied_at(old(self).hierarchy_spec(), final(self).hierarchy_spec(), LayerSel::L1(cluster_id), banks.0, lines.1, ready_at,
                level == MissLevel::L1 || level == MissLevel::L2),
            readied_at(old(self).hierarchy_spec(), final(self).hierarchy_spec(), LayerSel::L2, banks.1, lines.2, ready_at,
                level == MissLevel::L2),
    {
        let ghost h0 = self.hierarchy;
        let l0_count = self.hierarchy.l0.len();
        let l1_count = self.hierarchy.l1.len();
        let (l0_line, l1_line, l2_line) = lines;
        let l0_enabled = self.policy.l0_enabled;
        let l0 = LayerSel::L0(core_id);
        let l1 = LayerSel::L1(cluster_id);
        match level {
            MissLevel::NoMiss => {},
            MissLevel::L0 => {
                if l0_enabled {
                    self.hierarchy.set_ready_at(l0, 0, l0_line, ready_at);
                }
            },
            MissLevel::L1 => {
                if l0_enabled {
                    self.hierarchy.set_ready_at(l0, 0, l0_line, ready_at);
                }
                self.hierarchy.set_ready_at(l1, banks.0, l1_line, ready_at);
            },
            MissLevel::L2 => {
                if l0_enabled {
                    self.hierarchy.set_ready_at(l0, 0, l0_line, ready_at);
                }
                self.hierarchy.set_ready_at(l1, banks.0, l1_line, ready_at);
                self.hierarchy.set_ready_at(LayerSel::L2, banks.1, l2_line, ready_at);
            },
        }
        proof {
            assert forall|j: int| 0 <= j < h0.l0@.len() && j != core_id implies #[trigger] self.hierarchy.l0@[j]
                == h0.l0@[j] by {
                assert(j < l0_count);
                assert(LayerSel::L0(j as usize) != LayerSel::L0(core_id));
                assert(LayerSel::L1(cluster_id) != LayerSel::L0(j as usize));
            }
            assert forall|j: int| 0 <= j < h0.l1@.len() && j != cluster_id implies #[trigger] self.hierarchy.l1@[j]
                == h0.l1@[j] by {
                assert(j < l1_count);
                assert(LayerSel::L1(j as usize) != LayerSel::L1(cluster_id));
                assert(LayerSel::L0(core_id) != LayerSel::L1(j as usize));
            }
        }
    }

    /// Issue `request` from core `core_id` at `now`. A core the model lacks
    /// refuses it as full. Flushes skip the caches and enter the graph at
    /// the flush size. An access to a cluster the model lacks is refused as
    /// full. Otherwise the access's lines and banks are computed, the L0
    /// (when enabled), L1 and L2 tags are probed down to the first hit (each
    /// probe counted at its bank), writebacks are decided for the levels it
    /// misses, and MSHR entries are taken down to the level it misses at:
    /// joining an existing entry answers at once, ready when that entry is;
    /// a level without room refuses the request as full and drops the
    /// entries this request made; else the request enters the graph and the
    /// entries it made become ready when it is.
    pub fn issue(&mut self, core_id: usize, now: Cycle, request: GmemRequest) -> (r: GmemResult<GmemIssue>)
        requires
            old(self).wf(),
        ensures
            old(self).hierarchy_spec().lines_kept(&final(self).hierarchy_spec()),
            final(self).wf(),
            old(self).others_kept(final(self), core_id as int),
            core_id >= old(self).core_count() ==> (r matches Err(e) && e.reason == GmemRejectReason::QueueFull
                && e.retry_at == sat_add(now as int, 1) && e.request == request),
            core_id < old(self).core_count() ==> final(self).queue(core_id as int) == old(self).queue(
                core_id as int,
            ),
            core_id < old(self).core_count() && (request.kind == GmemRequestKind::Load || request.kind
                == GmemRequestKind::Store) && request.cluster_id >= old(self).cluster_count() ==> (r matches Err(
                e,
            ) && e.reason == GmemRejectReason::QueueFull && e.retry_at == sat_add(now as int, 1))
                && final(self).core_stat(core_id as int) == old(self).core_stat(core_id as int),
            r matches Ok(i) ==> core_id < old(self).core_count() && i.request_id == cluster_assigned_id(
                old(self).core_next_id(core_id as int),
                request.id,
            ) && final(self).core_stat(core_id as int) == old(self).core_stat(core_id as int).after_issue(
                charged_bytes(old(self).policy_spec(), request),
            ) && final(self).core_next_id(core_id as int) == next_after(
                old(self).core_next_id(core_id as int),
                i.request_id,
            ),
            r matches Err(e) ==> (core_id < old(self).core_count() ==> e.request.id == cluster_assigned_id(
                old(self).core_next_id(core_id as int),
                request.id,
            ) && e.request.core_id == core_id && final(self).core_next_id(core_id as int) == old(
                self,
            ).core_next_id(core_id as int)),
            r matches Err(e) ==> (e.reason == GmemRejectReason::QueueFull ==> e.retry_at == sat_add(now as int, 1)),
            r matches Err(e) ==> core_id < old(self).core_count() && (!(request.kind == GmemRequestKind::Load
                || request.kind == GmemRequestKind::Store) || request.cluster_id < old(self).cluster_count()) ==> (
            e.reason == GmemRejectReason::QueueFull ==> final(self).core_stat(core_id as int) == old(self).core_stat(
                core_id as int,
            ).after_queue_full()) && (e.reason == GmemRejectReason::Busy ==> final(self).core_stat(core_id as int)
                == old(self).core_stat(core_id as int).after_busy()),
            core_id < old(self).core_count() && (request.kind == GmemRequestKind::Load || request.kind
                == GmemRequestKind::Store) && request.cluster_id < old(self).cluster_count() ==> old(self).access_answered(
                final(self),
                core_id,
                now,
                GmemRequest {
                    core_id,
                    id: cluster_assigned_id(old(self).core_next_id(core_id as int), request.id),
                    ..request
                },
                r,
            ),
            core_id < old(self).core_count() && !(request.kind == GmemRequestKind::Load || request.kind
                == GmemRequestKind::Store) ==> old(self).ingress_outcome(
                final(self),
                core_id as int,
                now,
                flush_form(
                    old(self).policy_spec(),
                    core_id,
                    cluster_assigned_id(old(self).core_next_id(core_id as int), request.id),
                    request,
                ),
                r,
            ),
    {
        if core_id >= self.cores.len() {
            return Self::refuse_full(request, now);
        }
        let mut request = request;
        request.core_id = core_id;
        let assigned = if request.id == 0 {
            self.cores[core_id].next_id
        } else {
            request.id
        };
        request.id = assigned;
        let policy = self.policy;
        if !request.kind.is_mem() {
            request.bytes = if policy.flush_bytes >= 1 {
                policy.flush_bytes
            } else {
                1
            };
            request.l0_hit = false;
            request.l1_hit = false;
            request.l2_hit = false;
            request.l1_writeback = false;
            request.l2_writeback = false;
            request.l1_bank = 0;
            request.l2_bank = 0;
            request.line_addr = 0;
            return self.issue_to_graph(core_id, now, request);
        }
        self.issue_access(core_id, now, request)
    }

    /// Hand the completion of `request` at `now` to its core (dropped for a
    /// core the model lacks), counting it and the queue's length.
    fn push_completion(&mut self, request: GmemRequest, ticket_ready_at: Cycle, now: Cycle)
        requires
            old(self).wf(),
        ensures
            final(self).graph_spec() == old(self).graph_spec(),
            forall|i: int| 0 <= i < old(self).core_count() ==> #[trigger] final(self).core_return(i) == old(self).core_return(i),
            final(self).wf(),
            old(self).appended_at(final(self), now),
            old(self).queues_gained(final(self), seq![(request, ticket_ready_at)], now),
            final(self).hierarchy_spec() == old(self).hierarchy_spec(),
            final(self).last_tick_spec() == old(self).last_tick_spec(),
    {
        let core_id = request.core_id;
        let ghost pre = *self;
        let ghost item = seq![(request, ticket_ready_at)];
        let ghost req = request;
        proof {
            assert(item.drop_last() =~= Seq::<(GmemRequest, Cycle)>::empty());
            assert(item.last() == (req, ticket_ready_at));
        }
        if core_id < self.cores.len() {
            let bytes = request.bytes;
            self.cores[core_id].stats.record_completion(bytes, now);
            self.cores[core_id].completions.push_back(GmemCompletion { ticket_ready_at, completed_at: now, request });
            let len = self.cores[core_id].completions.len();
            self.cores[core_id].stats.update_completion_queue(len);
            proof {
                assert forall|i: int| 0 <= i < pre.core_count() implies grew(#[trigger] pre.queue(i), self.queue(i), now) by {
                    if i == core_id {
                        assert(self.queue(i).take(pre.queue(i).len() as int) =~= pre.queue(i));
                    } else {
                        assert(self.queue(i) == pre.queue(i));
                        assert(self.queue(i).take(pre.queue(i).len() as int) =~= pre.queue(i));
                    }
                }
            }
            proof {
                assert forall|i: int| 0 <= i < pre.core_count() implies {
                    &&& (#[trigger] self.queue(i)).len() >= pre.queue(i).len()
                    &&& self.queue(i).take(pre.queue(i).len() as int) == pre.queue(i)
                    &&& completions_match(self.queue(i).skip(pre.queue(i).len() as int), for_core(i, item), now)
                } by {
                    if i == core_id {
                        assert(self.queue(i) == pre.queue(i).push(GmemCompletion { ticket_ready_at, completed_at: now, request: req }));
                        assert(self.queue(i).take(pre.queue(i).len() as int) =~= pre.queue(i));
                        assert(for_core(i, item.drop_last()) =~= Seq::<(GmemRequest, Cycle)>::empty());
                        assert(item.last().0.core_id == req.core_id);
                        assert(for_core(i, item) =~= item);
                        assert(self.queue(i).skip(pre.queue(i).len() as int) =~= seq![GmemCompletion { ticket_ready_at, completed_at: now, request: req }]);
                    } else {
                        assert(self.queue(i) == pre.queue(i));
                        assert(self.queue(i).take(pre.queue(i).len() as int) =~= pre.queue(i));
                        assert(for_core(i, item.drop_last()) =~= Seq::<(GmemRequest, Cycle)>::empty());
                        assert(item.last().0.core_id == req.core_id);
                        assert(for_core(i, item.drop_last()) =~= Seq::<(GmemRequest, Cycle)>::empty());
                    assert(item.last().0.core_id == req.core_id);
                    assert(for_core(i, item) =~= Seq::<(GmemRequest, Cycle)>::empty());
                        assert(self.queue(i).skip(pre.queue(i).len() as int) =~= Seq::<GmemCompletion>::empty());
                    }
                }
            }
        } else {
            proof {
                assert forall|i: int| 0 <= i < pre.core_count() implies grew(#[trigger] pre.queue(i), self.queue(i), now) by {
                    assert(self.queue(i).take(pre.queue(i).len() as int) =~= pre.queue(i));
                }
                assert forall|i: int| 0 <= i < pre.core_count() implies {
                    &&& (#[trigger] self.queue(i)).len() >= pre.queue(i).len()
                    &&& self.queue(i).take(pre.queue(i).len() as int) == pre.queue(i)
                    &&& completions_match(self.queue(i).skip(pre.queue(i).len() as int), for_core(i, item), now)
                } by {
                    assert(self.queue(i).take(pre.queue(i).len() as int) =~= pre.queue(i));
                    assert(for_core(i, item.drop_last()) =~= Seq::<(GmemRequest, Cycle)>::empty());
                    assert(item.last().0.core_id == req.core_id);
                    assert(for_core(i, item) =~= Seq::<(GmemRequest, Cycle)>::empty());
                    assert(self.queue(i).skip(pre.queue(i).len() as int) =~= Seq::<GmemCompletion>::empty());
                }
            }
        }
    }

    /// What a completed request leaves in the caches: a flush invalidates
    /// its L0 (when enabled) or its cluster's L1; a completed load fills
    /// its line into each level it missed.
    fn apply_completion_effects(&mut self, request: &GmemRequest)
        requires
            old(self).wf(),
        ensures
            final(self).graph_spec() == old(self).graph_spec(),
            forall|i: int| 0 <= i < old(self).core_count() ==> #[trigger] final(self).core_return(i) == old(self).core_return(i),
            final(self).wf(),
            old(self).others_kept(final(self), -1),
            ({
                let h = old(self).hierarchy_spec();
                let h2 = final(self).hierarchy_spec();
                let p = old(self).policy_spec();
                let fl0 = request.kind == GmemRequestKind::FlushL0;
                let fl1 = request.kind == GmemRequestKind::FlushL1;
                let load = (request.kind == GmemRequestKind::Load || request.kind == GmemRequestKind::Store)
                    && request.is_load;
                &&& h.same_layers(&h2)
                &&& forall|j: int| 0 <= j < h.l0@.len() && j != request.core_id ==> #[trigger] h2.l0@[j] == h.l0@[j]
                &&& forall|j: int| 0 <= j < h.l1@.len() && j != request.cluster_id ==> #[trigger] h2.l1@[j] == h.l1@[j]
                &&& fl0 ==> cleared_at(h, h2, LayerSel::L0(request.core_id), p.l0_enabled)
                &&& !fl0 ==> filled_at(h, h2, LayerSel::L0(request.core_id), line_addr_spec(request.addr, p.l0_line_bytes),
                    load && p.l0_enabled && !request.l0_hit)
                &&& fl1 ==> cleared_at(h, h2, LayerSel::L1(request.cluster_id), true)
                &&& !fl1 ==> filled_at(h, h2, LayerSel::L1(request.cluster_id), line_addr_spec(request.addr, p.l1_line_bytes),
                    load && !request.l1_hit)
                &&& filled_at(h, h2, LayerSel::L2, line_addr_spec(request.addr, p.l2_line_bytes), load && !request.l2_hit)
            }),
    {
        let ghost h0 = self.hierarchy;
        let l0_count = self.hierarchy.l0.len();
        let l1_count = self.hierarchy.l1.len();
        proof {
            assert forall|j: int| 0 <= j < h0.l0@.len() implies #[trigger] h0.l0@[j] == h0.l0@[j] && j < l0_count && LayerSel::L0(j as usize) != LayerSel::L1(request.cluster_id)
                && LayerSel::L0(j as usize) != LayerSel::L2 && (j != request.core_id ==> LayerSel::L0(j as usize) != LayerSel::L0(request.core_id)) by {}
            assert forall|j: int| 0 <= j < h0.l1@.len() implies #[trigger] h0.l1@[j] == h0.l1@[j] && j < l1_count && LayerSel::L1(j as usize) != LayerSel::L0(request.core_id)
                && LayerSel::L1(j as usize) != LayerSel::L2 && (j != request.cluster_id ==> LayerSel::L1(j as usize) != LayerSel::L1(request.cluster_id)) by {}
        }
        if request.kind.is_flush_l0() {
            if self.policy.l0_enabled {
                self.hierarchy.invalidate_all(LayerSel::L0(request.core_id));
            }
            return;
        }
        if request.kind.is_flush_l1() {
            self.hierarchy.invalidate_all(LayerSel::L1(request.cluster_id));
            return;
        }
        if !request.kind.is_mem() || !request.is_load {
            return;
        }
        let policy = self.policy;
        let l0 = LayerSel::L0(request.core_id);
        let l1 = LayerSel::L1(request.cluster_id);
        if policy.l0_enabled && !request.l0_hit {
            self.hierarchy.fill(l0, line_addr(request.addr, policy.l0_line_bytes));
        }
        let ghost h1 = self.hierarchy;
        if !request.l1_hit {
            self.hierarchy.fill(l1, line_addr(request.addr, policy.l1_line_bytes));
        }
        let ghost h2 = self.hierarchy;
        if !request.l2_hit {
            self.hierarchy.fill(LayerSel::L2, line_addr(request.addr, policy.l2_line_bytes));
        }
        proof {
            let h3 = self.hierarchy;
            if h0.has_layer(l0) {
                assert(h2.l0@[request.core_id as int] == h1.l0@[request.core_id as int]);
                assert(h3.l0@[request.core_id as int] == h2.l0@[request.core_id as int]);
                assert(h1.layer(l0) == h3.layer(l0));
            }
            if h0.has_layer(l1) {
                assert(h1.l1@[request.cluster_id as int] == h0.l1@[request.cluster_id as int]);
                assert(h3.l1@[request.cluster_id as int] == h2.l1@[request.cluster_id as int]);
                assert(h2.layer(l1) == h3.layer(l1));
                assert(h0.layer(l1) == h1.layer(l1));
            }
            assert(h1.l2 == h0.l2);
            assert(h2.l2 == h1.l2);
        }
    }

    /// Drop the L0 and L1 entries of `req`'s lines (the L1 only when
    /// `with_l1`).
    fn release_upper(&mut self, req: &GmemRequest, with_l1: bool)
        requires
            old(self).wf(),
        ensures
            final(self).cores == old(self).cores,
            final(self).graph_spec() == old(self).graph_spec(),
            forall|i: int| 0 <= i < old(self).core_count() ==> #[trigger] final(self).core_return(i) == old(self).core_return(i),
            final(self).wf(),
            old(self).others_kept(final(self), -1),
            old(self).hierarchy_spec().same_layers(&final(self).hierarchy_spec()),
            forall|j: int|
                0 <= j < old(self).hierarchy_spec().l0@.len() && j != req.core_id ==> #[trigger] final(self).hierarchy_spec().l0@[j] == old(self).hierarchy_spec().l0@[j],
            forall|j: int|
                0 <= j < old(self).hierarchy_spec().l1@.len() && j != req.cluster_id ==> #[trigger] final(self).hierarchy_spec().l1@[j] == old(self).hierarchy_spec().l1@[j],
            final(self).hierarchy_spec().l2 == old(self).hierarchy_spec().l2,
            released_at(
                old(self).hierarchy_spec(),
                final(self).hierarchy_spec(),
                LayerSel::L0(req.core_id),
                0,
                line_addr_spec(req.addr, old(self).policy_spec().l0_line_bytes),
                old(self).policy_spec().l0_enabled,
            ),
            released_at(
                old(self).hierarchy_spec(),
                final(self).hierarchy_spec(),
                LayerSel::L1(req.cluster_id),
                if old(self).l1_banks >= 1 && req.l1_bank >= old(self).l1_banks - 1 {
                    (old(self).l1_banks - 1) as usize
                } else if old(self).l1_banks >= 1 {
                    req.l1_bank
                } else {
                    0
                },
                line_addr_spec(req.addr, old(self).policy_spec().l1_line_bytes),
                with_l1,
            ),
    {
        let ghost h0 = self.hierarchy;
        let l0_count = self.hierarchy.l0.len();
        let l1_count = self.hierarchy.l1.len();
        let policy = self.policy;
        if policy.l0_enabled {
            let line = line_addr(req.addr, policy.l0_line_bytes);
            let _ = self.hierarchy.remove_entry_merged(LayerSel::L0(req.core_id), 0, line);
        }
        if with_l1 {
            let line = line_addr(req.addr, policy.l1_line_bytes);
            let last = if self.l1_banks >= 1 {
                self.l1_banks - 1
            } else {
                0
            };
            let bank = if req.l1_bank < last {
                req.l1_bank
            } else {
                last
            };
            let _ = self.hierarchy.remove_entry_merged(LayerSel::L1(req.cluster_id), bank, line);
        }
        proof {
            assert forall|j: int| 0 <= j < h0.l0@.len() && j != req.core_id implies #[trigger] self.hierarchy.l0@[j]
                == h0.l0@[j] by {
                assert(j < l0_count);
                assert(LayerSel::L0(j as usize) != LayerSel::L0(req.core_id));
                assert(LayerSel::L1(req.cluster_id) != LayerSel::L0(j as usize));
            }
            assert forall|j: int| 0 <= j < h0.l1@.len() && j != req.cluster_id implies #[trigger] self.hierarchy.l1@[j]
                == h0.l1@[j] by {
                assert(j < l1_count);
                assert(LayerSel::L1(j as usize) != LayerSel::L1(req.cluster_id));
                assert(LayerSel::L0(req.core_id) != LayerSel::L1(j as usize));
            }
        }
    }

    /// When a request that missed completes, the MSHR entry of the level it
    /// missed at is released: the requests merged into it complete with it,
    /// each completion is counted at that level's bank, and the entries of
    /// the levels above are dropped.
    #[verifier::spinoff_prover]
    #[verifier::rlimit(40)]
    fn drain_mshr_merges(&mut self, request: &GmemRequest, now: Cycle) -> (r: Vec<GmemRequest>)
        requires
            old(self).wf(),
        ensures
            final(self).graph_spec() == old(self).graph_spec(),
            forall|i: int| 0 <= i < old(self).core_count() ==> #[trigger] final(self).core_return(i) == old(self).core_return(i),
            final(self).wf(),
            old(self).others_kept(final(self), -1),
            r@ == if !(request.kind == GmemRequestKind::Load || request.kind == GmemRequestKind::Store) {
                Seq::empty()
            } else {
                let h = old(self).hierarchy_spec();
                let p = old(self).policy_spec();
                match deepest_miss(p.l0_enabled, *request) {
                    MissLevel::NoMiss => Seq::empty(),
                    MissLevel::L0 => entry_merged(h, LayerSel::L0(request.core_id), 0, line_addr_spec(request.addr, p.l0_line_bytes)),
                    MissLevel::L1 => entry_merged(h, LayerSel::L1(request.cluster_id), request.l1_bank, line_addr_spec(request.addr, p.l1_line_bytes)),
                    MissLevel::L2 => entry_merged(h, LayerSel::L2, request.l2_bank, line_addr_spec(request.addr, p.l2_line_bytes)),
                }
            },
    {
        if !request.kind.is_mem() {
            return Vec::new();
        }
        let policy = self.policy;
        let l0_enabled = policy.l0_enabled;
        let level = self.miss_level(request);
        match level {
            MissLevel::NoMiss => Vec::new(),
            MissLevel::L0 => {
                if l0_enabled {
                    let line = line_addr(request.addr, policy.l0_line_bytes);
                    self.hierarchy.remove_entry_merged(LayerSel::L0(request.core_id), 0, line)
                } else {
                    Vec::new()
                }
            },
            MissLevel::L1 => {
                let cluster = LayerSel::L1(request.cluster_id);
                let bank = request.l1_bank;
                if request.cluster_id < self.hierarchy.l1.len() && bank < self.hierarchy.bank_count(cluster) {
                    let line = line_addr(request.addr, policy.l1_line_bytes);
                    let merged = self.hierarchy.remove_entry_merged(cluster, bank, line);
                    self.hierarchy.record_completion(cluster, bank, request.bytes, now);
                    let mut k: usize = 0;
                    while k < merged.len()
                        invariant
                            old(self).graph_spec() == self.graph_spec(),
                            self.core_count() == old(self).core_count(),
                            self.cores == old(self).cores,
                            self.wf(),
                            self.policy == policy,
                            old(self).others_kept(self, -1),
                            k <= merged@.len(),
                        decreases merged@.len() - k,
                    {
                        let ghost before = *self;
                        self.hierarchy.record_completion(cluster, bank, merged[k].bytes, now);
                        proof {
                            assert(before.others_kept(self, -1));
                            Self::lemma_kept_chain(old(self), &before, self, -1);
                        }
                        k = k + 1;
                    }
                    if l0_enabled {
                        self.release_upper(request, false);
                        let mut k: usize = 0;
                        while k < merged.len()
                            invariant
                                old(self).graph_spec() == self.graph_spec(),
                                self.core_count() == old(self).core_count(),
                                self.cores == old(self).cores,
                                self.wf(),
                                self.policy == policy,
                                old(self).others_kept(self, -1),
                                k <= merged@.len(),
                            decreases merged@.len() - k,
                        {
                            let ghost before = *self;
                            self.release_upper(&merged[k], false);
                            proof {
                                Self::lemma_kept_chain(old(self), &before, self, -1);
                            }
                            k = k + 1;
                        }
                    }
                    merged
                } else {
                    Vec::new()
                }
            },
            MissLevel::L2 => {
                let bank = request.l2_bank;
                if bank < self.hierarchy.l2.bank_count() {
                    let line = line_addr(request.addr, policy.l2_line_bytes);
                    let merged = self.hierarchy.remove_entry_merged(LayerSel::L2, bank, line);
                    self.hierarchy.record_completion(LayerSel::L2, bank, request.bytes, now);
                    let mut k: usize = 0;
                    while k < merged.len()
                        invariant
                            old(self).graph_spec() == self.graph_spec(),
                            self.core_count() == old(self).core_count(),
                            self.cores == old(self).cores,
                            self.wf(),
                            self.policy == policy,
                            old(self).others_kept(self, -1),
                            k <= merged@.len(),
                        decreases merged@.len() - k,
                    {
                        let ghost before = *self;
                        self.hierarchy.record_completion(LayerSel::L2, bank, merged[k].bytes, now);
                        proof {
                            assert(before.others_kept(self, -1));
                            Self::lemma_kept_chain(old(self), &before, self, -1);
                        }
                        k = k + 1;
                    }
                    self.release_upper(request, true);
                    let mut k: usize = 0;
                    while k < merged.len()
                        invariant
                            old(self).graph_spec() == self.graph_spec(),
                            self.core_count() == old(self).core_count(),
                            self.cores == old(self).cores,
                            self.wf(),
                            self.policy == policy,
                            old(self).others_kept(self, -1),
                            k <= merged@.len(),
                        decreases merged@.len() - k,
                    {
                        let ghost before = *self;
                        self.release_upper(&merged[k], true);
                        proof {
                            Self::lemma_kept_chain(old(self), &before, self, -1);
                        }
                        k = k + 1;
                    }
                    merged
                } else {
                    Vec::new()
                }
            },
        }
    }

    /// Advance the model to `now` (once per cycle; a second call in the same
    /// cycle does nothing): tick the graph, then collect each core's
    /// returning requests in order, each followed by the requests merged
    /// into its MSHR entry, all completing at `now` and leaving their effects
    /// in the caches.
    pub fn tick(&mut self, now: Cycle)
        requires
            old(self).wf(),
        ensures
            final(self).wf(),
            old(self).last_tick_spec() == now ==> *final(self) == *old(self),
            old(self).appended_at(final(self), now),
            final(self).last_tick_spec() == now,
            old(self).last_tick_spec() != now ==> old(self).tick_collected(final(self), now),
            old(self).last_tick_spec() != now ==> forall|i: int|
                0 <= i < final(self).core_count() ==> #[trigger] final(self).graph_spec().node_at(
                    final(self).core_return(i) as int,
                ).visible(now).len() == 0,
    {
        if now == self.last_tick {
            proof {
                assert forall|i: int| 0 <= i < self.core_count() implies grew(#[trigger] self.queue(i), self.queue(i), now) by {
                    assert(self.queue(i).take(self.queue(i).len() as int) =~= self.queue(i));
                }
            }
            return;
        }
        self.last_tick = now;
        self.graph.tick(now);
        let ghost start = *self;
        proof {
            assert forall|i: int| 0 <= i < start.core_count() implies grew(#[trigger] old(self).queue(i), start.queue(i), now) by {
                assert(start.queue(i).take(start.queue(i).len() as int) =~= start.queue(i));
            }
        }
        let ghost g1 = start.graph_spec();
        let ghost mut rets: Seq<(GmemRequest, Cycle)> = Seq::empty();
        let ghost mut ms: Seq<Seq<GmemRequest>> = Seq::empty();
        let ghost mut hs: Seq<GmemHierarchy> = Seq::empty();
        proof {
            Self::lemma_gained_refl(&start, now);
            assert(expand(rets, ms) =~= Seq::<(GmemRequest, Cycle)>::empty());
        }
        let n = self.cores.len();
        let mut core_id: usize = 0;
        while core_id < n
            invariant
                rets == start.returns_upto(g1, core_id as int, now),
                forall|k: int| core_id <= k < n ==> #[trigger] self.graph_spec().node_at(self.core_return(k) as int) == g1.node_at(self.core_return(k) as int),
                ms.len() == rets.len(),
                hs.len() == rets.len(),
                forall|j: int| 0 <= j < rets.len() ==> #[trigger] ms[j] == merged_of(hs[j], start.policy_spec(), rets[j].0),
                rets.len() > 0 ==> hs[0] == start.hierarchy_spec(),
                rets.len() == 0 ==> self.hierarchy_spec() == start.hierarchy_spec(),
                start.queues_gained(self, expand(rets, ms), now),
                self.policy_spec() == start.policy_spec(),
                start.core_count() == n,
                self.wf(),
                n == self.core_count(),
                old(self).appended_at(self, now),
                self.last_tick == now,
                core_id <= n,
                forall|i: int| 0 <= i < n ==> #[trigger] self.core_return(i) == start.core_return(i),
                forall|i: int| 0 <= i < n ==> self.core_return(i) < self.graph_spec().node_count(),
                forall|i: int|
                    0 <= i < core_id ==> #[trigger] self.graph_spec().node_at(self.core_return(i) as int).visible(
                        now,
                    ).len() == 0,
            decreases n - core_id,
        {
            let ghost before = *self;
            let drained = self.drain_return(core_id, now);
            let ghost dl = drained@;
            let ghost rets0 = rets;
            proof {
                assert(dl == gmem_returns(g1.node_at(start.core_return(core_id as int) as int).visible(now)));
                Self::lemma_gained_same(&start, &before, self, expand(rets, ms), now);
                assert forall|k: int| core_id + 1 <= k < n implies #[trigger] self.graph_spec().node_at(self.core_return(k) as int) == g1.node_at(self.core_return(k) as int) by {
                    assert(before.core_return(k) != before.core_return(core_id as int));
                    assert(before.graph_spec().node_at(before.core_return(k) as int) == g1.node_at(before.core_return(k) as int));
                }
                assert(dl.skip(0) =~= dl);
                assert(rets0 + dl.take(0) =~= rets0);
                assert forall|i: int|
                    0 <= i < core_id + 1 implies #[trigger] self.graph_spec().node_at(self.core_return(i) as int).visible(
                    now,
                ).len() == 0 by {
                    if i < core_id && self.core_return(i) != self.core_return(core_id as int) {
                        assert(self.graph_spec().node_at(self.core_return(i) as int) == before.graph_spec().node_at(
                            before.core_return(i) as int,
                        ));
                    }
                }
            }
            let ghost g_drained = self.graph_spec();
            let ghost sd = *self;
            let mut drained = drained;
            let ghost mut p: int = 0;
            while drained.len() > 0
                invariant
                    0 <= p <= dl.len(),
                    drained@ == dl.skip(p),
                    rets == rets0 + dl.take(p),
                    forall|k: int| core_id + 1 <= k < n ==> #[trigger] self.graph_spec().node_at(self.core_return(k) as int) == g1.node_at(self.core_return(k) as int),
                    ms.len() == rets.len(),
                    hs.len() == rets.len(),
                    forall|j: int| 0 <= j < rets.len() ==> #[trigger] ms[j] == merged_of(hs[j], start.policy_spec(), rets[j].0),
                    rets.len() > 0 ==> hs[0] == start.hierarchy_spec(),
                    rets.len() == 0 ==> self.hierarchy_spec() == start.hierarchy_spec(),
                    start.queues_gained(self, expand(rets, ms), now),
                    self.policy_spec() == start.policy_spec(),
                    start.core_count() == n,
                    self.wf(),
                    n == self.core_count(),
                    old(self).appended_at(self, now),
                    self.last_tick == now,
                    self.graph_spec() == g_drained,
                    forall|i: int| 0 <= i < n ==> #[trigger] self.core_return(i) == start.core_return(i),
                decreases drained@.len(),
            {
                let (request, ready_at) = drained.remove(0);
                let ghost before = *self;
                self.retire(request, ready_at, now);
                proof {
                    Self::lemma_appended_trans(old(self), &before, self, now);
                    assert((request, ready_at) == dl[p]);
                    let m = merged_of(before.hierarchy_spec(), start.policy_spec(), request);
                    let r2 = rets.push((request, ready_at));
                    let m2 = ms.push(m);
                    assert(r2.drop_last() =~= rets);
                    assert(m2.take(r2.len() - 1) =~= ms);
                    assert(expand(r2, m2) == expand(rets, ms) + seq![(request, ready_at)] + at_cycle(m, ready_at));
                    assert(seq![(request, ready_at)] + at_cycle(m, ready_at) == seq![(request, ready_at)] + at_cycle(
                        merged_of(before.hierarchy_spec(), before.policy_spec(), request),
                        ready_at,
                    ));
                    Self::lemma_gained_trans(&start, &before, self, expand(rets, ms), seq![(request, ready_at)] + at_cycle(m, ready_at), now);
                    assert(expand(rets, ms) + (seq![(request, ready_at)] + at_cycle(m, ready_at)) =~= expand(r2, m2));
                    if rets.len() == 0 {
                        assert(hs.push(before.hierarchy_spec())[0] == start.hierarchy_spec());
                    }
                    assert forall|j: int| 0 <= j < r2.len() implies #[trigger] m2[j] == merged_of(hs.push(before.hierarchy_spec())[j], start.policy_spec(), r2[j].0) by {
                        if j < rets.len() {
                            assert(m2[j] == ms[j]);
                            assert(r2[j] == rets[j]);
                        }
                    }
                    assert(drained@ =~= dl.skip(p + 1));
                    assert(rets0 + dl.take(p + 1) =~= r2);
                    rets = r2;
                    ms = m2;
                    hs = hs.push(before.hierarchy_spec());
                    p = p + 1;
                }
            }
            proof {
                assert(dl.take(p) =~= dl);
                assert(start.returns_upto(g1, core_id + 1, now) == rets0 + dl);
                assert forall|i: int|
                    0 <= i < core_id + 1 implies #[trigger] self.graph_spec().node_at(self.core_return(i) as int).visible(
                    now,
                ).len() == 0 by {
                    assert(self.core_return(i) == start.core_return(i));
                    assert(sd.core_return(i) == start.core_return(i));
                    assert(sd.graph_spec().node_at(sd.core_return(i) as int).visible(now).len() == 0);
                }
            }
            core_id = core_id + 1;
        }
        proof {
            Self::lemma_returns_same(&start, old(self), g1, n as int, now);
            assert forall|i: int| 0 <= i < old(self).core_count() implies #[trigger] start.queue(i) == old(self).queue(i) by {}
            assert(old(self).tick_gathered(self, g1, ms, hs, now));
        }
    }

    /// Take the requests that returned to core `core_id` by `now`, with the
    /// cycles their tickets became ready.
    fn drain_return(&mut self, core_id: usize, now: Cycle) -> (r: Vec<(GmemRequest, Cycle)>)
        requires
            old(self).wf(),
            core_id < old(self).core_count(),
        ensures
            final(self).hierarchy_spec() == old(self).hierarchy_spec(),
            final(self).graph_spec().node_at(old(self).core_return(core_id as int) as int).visible(now).len() == 0,
            final(self).graph_spec().node_count() == old(self).graph_spec().node_count(),
            forall|n: int|
                0 <= n < old(self).graph_spec().node_count() && n != old(self).core_return(core_id as int) ==> #[trigger] final(self).graph_spec().node_at(n)
                    == old(self).graph_spec().node_at(n),
            forall|i: int| 0 <= i < old(self).core_count() ==> #[trigger] final(self).core_return(i) == old(self).core_return(i),
            final(self).wf(),
            old(self).others_kept(final(self), -1),
            r@ == gmem_returns(
                old(self).graph.node_at(old(self).cores@[core_id as int].return_node as int).visible(now),
            ),
    {
        let node_id = self.cores[core_id].return_node;
        let mut out: Vec<(GmemRequest, Cycle)> = Vec::new();
        let node = self.graph.node_mut(node_id);
        let ghost v0 = node.visible(now);
        loop
            invariant
                node.inv(),
                out@ + gmem_returns(node.visible(now)) == gmem_returns(v0),
            ensures
                node.inv(),
                out@ == gmem_returns(v0),
                node.visible(now).len() == 0,
            decreases node.visible(now).len(),
        {
            let ghost v = node.visible(now);
            match node.take_ready(now) {
                Some(result) => {
                    proof {
                        assert(v.drop_first() == node.visible(now));
                        assert(result == v[0]);
                    }
                    match result.payload {
                        CoreFlowPayload::Gmem(request) => {
                            out.push((request, result.ticket.ready_at()));
                            proof {
                                assert(out@ + gmem_returns(node.visible(now)) =~= gmem_returns(v0));
                            }
                        },
                        CoreFlowPayload::Smem(_) => {
                            proof {
                                assert(out@ + gmem_returns(node.visible(now)) =~= gmem_returns(v0));
                            }
                        },
                    }
                },
                None => {
                    proof {
                        assert(gmem_returns(v) =~= Seq::empty());
                        assert(out@ =~= gmem_returns(v0));
                    }
                    break;
                },
            }
        }
        out
    }

    /// Complete a returned request and the requests merged with it.
    fn retire(&mut self, request: GmemRequest, ready_at: Cycle, now: Cycle)
        requires
            old(self).wf(),
        ensures
            final(self).graph_spec() == old(self).graph_spec(),
            forall|i: int| 0 <= i < old(self).core_count() ==> #[trigger] final(self).core_return(i) == old(self).core_return(i),
            final(self).wf(),
            old(self).appended_at(final(self), now),
            old(self).queues_gained(
                final(self),
                seq![(request, ready_at)] + at_cycle(merged_of(old(self).hierarchy_spec(), old(self).policy_spec(), request), ready_at),
                now,
            ),
            final(self).last_tick_spec() == old(self).last_tick_spec(),
    {
        let ghost s0 = *self;
        let dup = request.duplicate();
        self.push_completion(dup, ready_at, now);
        let ghost s1 = *self;
        let ghost first = seq![(request, ready_at)];
        proof {
            Self::lemma_gained_alike(&s0, &s1, seq![(dup, ready_at)], first, now);
        }
        self.apply_completion_effects(&request);
        let ghost s2 = *self;
        proof {
            Self::lemma_gained_same(&s0, &s1, &s2, first, now);
            let h1 = s1.hierarchy_spec();
            let h2 = s2.hierarchy_spec();
            assert forall|sel: LayerSel| h1.has_layer(sel) implies (#[trigger] h2.layer(sel)).banks == h1.layer(sel).banks by {
                match sel {
                    LayerSel::L0(j) => {
                        if j != request.core_id {
                            assert(h2.l0@[j as int] == h1.l0@[j as int]);
                        }
                    },
                    LayerSel::L1(j) => {
                        if j != request.cluster_id {
                            assert(h2.l1@[j as int] == h1.l1@[j as int]);
                        }
                    },
                    LayerSel::L2 => {},
                }
            }
            lemma_merged_kept(h1, h2, s0.policy_spec(), request);
        }
        proof {
            assert forall|i: int| 0 <= i < s0.core_count() implies grew(#[trigger] s0.queue(i), s2.queue(i), now) by {
                assert(s1.queue(i) == s2.queue(i) || i == -1);
            }
        }
        let merged = self.drain_mshr_merges(&request, now);
        let ghost s3 = *self;
        proof {
            Self::lemma_gained_same(&s0, &s2, &s3, first, now);
            assert(merged@ == merged_of(s2.hierarchy_spec(), s2.policy_spec(), request));
            assert(s1.hierarchy_spec() == s0.hierarchy_spec());
            assert(merged@ == merged_of(s0.hierarchy_spec(), s0.policy_spec(), request));
            assert(at_cycle(merged@.take(0), ready_at) =~= Seq::<(GmemRequest, Cycle)>::empty());
            assert(first + at_cycle(merged@.take(0), ready_at) =~= first);
        }
        proof {
            assert forall|i: int| 0 <= i < s0.core_count() implies grew(#[trigger] s0.queue(i), s3.queue(i), now) by {
                assert(s2.queue(i) == s3.queue(i));
            }
        }
        let mut k: usize = 0;
        while k < merged.len()
            invariant
                old(self).graph_spec() == self.graph_spec(),
                self.core_count() == old(self).core_count(),
                forall|i: int| 0 <= i < old(self).core_count() ==> #[trigger] self.core_return(i) == old(self).core_return(i),
                self.wf(),
                s0.appended_at(self, now),
                self.last_tick_spec() == s0.last_tick_spec(),
                k <= merged@.len(),
                s0.queues_gained(self, first + at_cycle(merged@.take(k as int), ready_at), now),
            decreases merged@.len() - k,
        {
            let ghost a = *self;
            let dk = merged[k].duplicate();
            self.push_completion(dk, ready_at, now);
            let ghost b = *self;
            proof {
                Self::lemma_gained_alike(&a, &b, seq![(dk, ready_at)], seq![(merged@[k as int], ready_at)], now);
                Self::lemma_gained_trans(&s0, &a, &b, first + at_cycle(merged@.take(k as int), ready_at), seq![(merged@[k as int], ready_at)], now);
                assert(first + at_cycle(merged@.take(k + 1), ready_at) =~= first + at_cycle(merged@.take(k as int), ready_at) + seq![(merged@[k as int], ready_at)]);
            }
            proof {
                assert forall|i: int| 0 <= i < s0.core_count() implies grew(#[trigger] s0.queue(i), b.queue(i), now) by {
                    lemma_grew_trans(s0.queue(i), a.queue(i), b.queue(i), now);
                }
            }
            self.apply_completion_effects(&merged[k]);
            proof {
                Self::lemma_gained_same(&s0, &b, self, first + at_cycle(merged@.take(k + 1), ready_at), now);
                assert forall|i: int| 0 <= i < s0.core_count() implies grew(#[trigger] s0.queue(i), self.queue(i), now) by {
                    assert(b.queue(i) == self.queue(i));
                }
            }
            k = k + 1;
        }
        proof {
            assert(merged@.take(merged@.len() as int) =~= merged@);
        }
    }

    /// Take the oldest completion of core `core_id`.
    pub fn pop_completion(&mut self, core_id: usize) -> (r: Option<GmemCompletion>)
        requires
            old(self).wf(),
        ensures
            final(self).wf(),
            old(self).others_kept(final(self), core_id as int),
            core_id >= old(self).core_count() ==> r is None,
            core_id < old(self).core_count() ==> {
                let q = old(self).queue(core_id as int);
                &&& q.len() == 0 ==> r is None && final(self).queue(core_id as int) == q
                &&& q.len() > 0 ==> r == Some(q[0]) && final(self).queue(core_id as int) == q.drop_first()
                &&& final(self).core_stat(core_id as int) == old(self).core_stat(core_id as int)
                &&& final(self).core_next_id(core_id as int) == old(self).core_next_id(core_id as int)
            },
    {
        if core_id >= self.cores.len() {
            return None;
        }
        self.cores[core_id].completions.pop_front()
    }

    /// Completions waiting at core `core_id` (none for a missing core).
    pub fn pending_completions(&self, core_id: usize) -> (r: usize)
        ensures
            core_id < self.core_count() ==> r == self.queue(core_id as int).len(),
            core_id >= self.core_count() ==> r == 0,
    {
        if core_id >= self.cores.len() {
            0
        } else {
            self.cores[core_id].completions.len()
        }
    }

    /// Statistics of core `core_id` (zero for a missing core).
    pub fn stats(&self, core_id: usize) -> (r: GmemStats)
        ensures
            core_id < self.core_count() ==> r@ == self.core_stat(core_id as int),
            core_id >= self.core_count() ==> r@ == zero_counters(),
    {
        if core_id >= self.cores.len() {
            GmemStats::default()
        } else {
            self.cores[core_id].stats
        }
    }

    /// Reset the statistics of core `core_id`.
    pub fn clear_stats(&mut self, core_id: usize)
        requires
            old(self).wf(),
        ensures
            final(self).wf(),
            old(self).others_kept(final(self), core_id as int),
            core_id < old(self).core_count() ==> final(self).core_stat(core_id as int) == zero_counters()
                && final(self).queue(core_id as int) == old(self).queue(core_id as int)
                && final(self).core_next_id(core_id as int) == old(self).core_next_id(core_id as int),
    {
        if core_id < self.cores.len() {
            self.cores[core_id].stats = GmemStats::default();
        }
    }

    /// The cache hierarchy (tags and per-bank counters of every layer).
    pub closed spec fn hierarchy_spec(&self) -> GmemHierarchy {
        self.hierarchy
    }

    /// Statistics of every cache layer together.
    pub fn hierarchy_stats(&self) -> (r: GmemStats)
        ensures
            r@ == merged_counters(
                fold_counters(
                    fold_counters(zero_counters(), layer_counters(self.hierarchy_spec().l0@)),
                    layer_counters(self.hierarchy_spec().l1@),
                ),
                self.hierarchy_spec().l2.counters(),
            ),
    {
        self.hierarchy.aggregate_stats()
    }

    /// Statistics of all L0 layers, all L1 layers, and the L2.
    pub fn hierarchy_stats_per_level(&self) -> (r: (GmemStats, GmemStats, GmemStats))
        ensures
            r.0@ == fold_counters(zero_counters(), layer_counters(self.hierarchy_spec().l0@)),
            r.1@ == fold_counters(zero_counters(), layer_counters(self.hierarchy_spec().l1@)),
            r.2@ == self.hierarchy_spec().l2.counters(),
    {
        self.hierarchy.per_level_stats()
    }

    /// Statistics of each cluster's L1.
    pub fn l1_cluster_stats(&self) -> (r: Vec<GmemStats>)
        ensures
            r@.len() == self.cluster_count(),
            forall|i: int| 0 <= i < r@.len() ==> (#[trigger] r@[i])@ == self.hierarchy_spec().l1@[i].counters(),
    {
        let mut out: Vec<GmemStats> = Vec::new();
        let mut i: usize = 0;
        while i < self.hierarchy.l1.len()
            invariant
                i <= self.hierarchy.l1@.len(),
                out@.len() == i,
                forall|j: int| 0 <= j < i ==> (#[trigger] out@[j])@ == self.hierarchy.l1@[j].counters(),
            decreases self.hierarchy.l1@.len() - i,
        {
            out.push(self.hierarchy.l1[i].stats());
            i = i + 1;
        }
        out
    }

    /// Statistics of each L2 bank.
    pub fn l2_bank_stats(&self) -> (r: Vec<GmemStats>)
        ensures
            r@.len() == self.hierarchy_spec().l2.banks@.len(),
            forall|i: int| 0 <= i < r@.len() ==> #[trigger] r@[i] == self.hierarchy_spec().l2.banks@[i].stats,
    {
        let mut out: Vec<GmemStats> = Vec::new();
        let mut i: usize = 0;
        while i < self.hierarchy.l2.banks.len()
            invariant
                i <= self.hierarchy.l2.banks@.len(),
                out@.len() == i,
                forall|j: int| 0 <= j < i ==> #[trigger] out@[j] == self.hierarchy.l2.banks@[j].stats,
            decreases self.hierarchy.l2.banks@.len() - i,
        {
            out.push(self.hierarchy.l2.banks[i].stats);
            i = i + 1;
        }
        out
    }

    /// Statistics of the L2.
    pub fn l2_stats(&self) -> (r: GmemStats)
        ensures
            r@ == self.hierarchy_spec().l2.counters(),
    {
        self.hierarchy.l2.stats()
    }

    /// The access part of `issue`, for a core the model has.
    #[verifier::spinoff_prover]
    #[verifier::rlimit(100)]
    fn issue_access(&mut self, core_id: usize, now: Cycle, request: GmemRequest) -> (r: GmemResult<GmemIssue>)
        requires
            old(self).wf(),
            core_id < old(self).core_count(),
            request.core_id == core_id,
        ensures
            old(self).hierarchy_spec().lines_kept(&final(self).hierarchy_spec()),
            request.cluster_id < old(self).cluster_count() ==> old(self).access_answered(final(self), core_id, now, request, r),
            final(self).wf(),
            old(self).others_kept(final(self), core_id as int),
            final(self).queue(core_id as int) == old(self).queue(core_id as int),
            request.cluster_id >= old(self).cluster_count() ==> (r matches Err(e) && e.reason
                == GmemRejectReason::QueueFull && e.retry_at == sat_add(now as int, 1)) && final(self).core_stat(
                core_id as int,
            ) == old(self).core_stat(core_id as int),
            r matches Ok(i) ==> i.request_id == request.id && final(self).core_stat(core_id as int) == old(
                self,
            ).core_stat(core_id as int).after_issue(request.bytes) && final(self).core_next_id(core_id as int)
                == next_after(old(self).core_next_id(core_id as int), i.request_id),
            r matches Err(e) ==> e.request.id == request.id && e.request.core_id == core_id && final(self).core_next_id(
                core_id as int,
            ) == old(self).core_next_id(core_id as int),
            r matches Err(e) ==> (e.reason == GmemRejectReason::QueueFull ==> e.retry_at == sat_add(now as int, 1)),
            r matches Err(e) ==> request.cluster_id < old(self).cluster_count() ==> (e.reason
                == GmemRejectReason::QueueFull ==> final(self).core_stat(core_id as int) == old(self).core_stat(
                core_id as int,
            ).after_queue_full()) && (e.reason == GmemRejectReason::Busy ==> final(self).core_stat(core_id as int)
                == old(self).core_stat(core_id as int).after_busy()),
    {
        let ghost s0 = *self;
        let ghost s0_request = request;
        let mut request = request;
        let policy = self.policy;
        let cluster_id = request.cluster_id;
        if cluster_id >= self.hierarchy.l1.len() {
            return Self::refuse_full(request, now);
        }
        let l0_line = if policy.l0_enabled {
            line_addr(request.addr, policy.l0_line_bytes)
        } else {
            0
        };
        let l1_line = line_addr(request.addr, policy.l1_line_bytes);
        let l2_line = line_addr(request.addr, policy.l2_line_bytes);
        let lines = (l0_line, l1_line, l2_line);
        request.line_addr = l2_line;
        let l1_banks: u64 = if self.l1_banks >= 1 {
            self.l1_banks as u64
        } else {
            1
        };
        let l2_count = self.hierarchy.l2.bank_count();
        let l2_banks: u64 = if l2_count >= 1 {
            l2_count as u64
        } else {
            1
        };
        request.l1_bank = bank_for(l1_line, l1_banks, L1_BANK_SEED);
        request.l2_bank = bank_for(l2_line, l2_banks, L2_BANK_SEED);
        let ghost routed = request;
        proof {
            assert(lines == access_lines(policy, request.addr));
            assert(routed == s0.routed_access(s0_request, lines));
        }
        let request = self.probe_levels(core_id, request, lines);
        let ghost s1 = *self;
        proof {
            lemma_verdict_kept(s0.hierarchy, s1.hierarchy, policy.l0_enabled, core_id, request, lines);
            if mshr_verdict(s0.hierarchy, policy.l0_enabled, core_id, request, lines) == MshrVerdict::Merge {
                lemma_merge_ready_kept(s0.hierarchy, s1.hierarchy, policy.l0_enabled, core_id, request, lines, now);
            }
        }
        assert(s1.queue(core_id as int) == s0.queue(core_id as int));
        let level = self.miss_level(&request);
        let banks = (request.l1_bank, request.l2_bank);
        let reserved = self.reserve(core_id, now, request, level, lines);
        let ghost s2 = *self;
        proof {
            Self::lemma_kept_chain(&s0, &s1, &s2, core_id as int);
        }
        match reserved {
            Reservation::Merged(issue) => Ok(issue),
            Reservation::Refused(request) => Self::refuse_full(request, now),
            Reservation::Reserved(request, made) => {
                match self.issue_to_graph(core_id, now, request) {
                    Ok(issue) => {
                        let ghost s3 = *self;
                        proof {
                            Self::lemma_kept_chain(&s0, &s2, &s3, core_id as int);
                        }
                        let ready_at = issue.ticket.ready_at();
                        self.mark_ready(core_id, cluster_id, banks, level, lines, ready_at);
                        proof {
                            lemma_took_through(s0.hierarchy, s1.hierarchy, s2.hierarchy, self.hierarchy, policy.l0_enabled, core_id, request, lines, ready_at);
                            Self::lemma_kept_chain(&s0, &s3, self, core_id as int);
                            assert(self.queue(core_id as int) == s3.queue(core_id as int));
                        }
                        Ok(issue)
                    },
                    Err(e) => {
                        let ghost s3 = *self;
                        proof {
                            Self::lemma_kept_chain(&s0, &s2, &s3, core_id as int);
                        }
                        self.rollback_mshrs(core_id, cluster_id, banks.0, banks.1, lines, made);
                        proof {
                            Self::lemma_kept_chain(&s0, &s3, self, core_id as int);
                            assert(self.queue(core_id as int) == s3.queue(core_id as int));
                        }
                        Err(e)
                    },
                }
            },
        }
    }
}

} // verus!
