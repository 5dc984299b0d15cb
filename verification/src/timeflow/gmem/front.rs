//! The per-core front of the global-memory model: requests enter at an
//! ingress node and completions are collected from a return node.

use crate::timeflow::gmem::request::{
    extract_gmem_request, GmemCompletion, GmemIssue, GmemReject, GmemRejectReason, GmemRequest,
    GmemResult,
};
use crate::timeflow::gmem::stats::{GmemCounters, GmemStats};
use crate::timeflow::graph::{EdgeFilter, FlowGraph, RouteFn, TimedNode};
use crate::timeflow::server_node::ServerNode;
use crate::timeflow::types::{CoreFlowPayload, NodeId};
use crate::timeq::{normalize_retry, normalize_retry_spec, sat_add, Backpressure, Cycle, ServiceRequest, ServiceResult};
use std::collections::VecDeque;
use vstd::prelude::*;

verus! {

/// The completions recorded for the results `s` taken at `now`: one per
/// global-memory payload, in order; other payloads are dropped.
pub open spec fn collected(s: Seq<ServiceResult<CoreFlowPayload>>, now: Cycle) -> Seq<GmemCompletion>
    decreases s.len(),
{
    if s.len() == 0 {
        Seq::empty()
    } else {
        let rest = collected(s.drop_last(), now);
        match s.last().payload {
            CoreFlowPayload::Gmem(request) => rest.push(
                GmemCompletion { request, ticket_ready_at: s.last().ticket.ready(), completed_at: now },
            ),
            CoreFlowPayload::Smem(_) => rest,
        }
    }
}

/// Every completion collected from results ready by `now` is ready by
/// `now`.
pub proof fn lemma_collected_ready(s: Seq<ServiceResult<CoreFlowPayload>>, now: Cycle)
    requires
        forall|j: int| 0 <= j < s.len() ==> (#[trigger] s[j]).ticket.ready() <= now,
    ensures
        forall|j: int| 0 <= j < collected(s, now).len() ==> (#[trigger] collected(s, now)[j]).ticket_ready_at <= now
            && collected(s, now)[j].completed_at == now,
    decreases s.len(),
{
    if s.len() > 0 {
        lemma_collected_ready(s.drop_last(), now);
    }
}

/// Called with cycles that never go back (`now` no earlier than any cycle
/// the return node was advanced to), collecting at `now` appends only
/// completions whose ticket is ready by `now`.
pub proof fn lemma_collect_ready_by_now<F: EdgeFilter<CoreFlowPayload>, R: RouteFn<CoreFlowPayload>>(
    graph: &FlowGraph<CoreFlowPayload, ServerNode<CoreFlowPayload>, F, R>,
    egress: NodeId,
    now: Cycle,
)
    requires
        graph.wf(),
        egress < graph.node_count(),
        graph.node_at(egress as int).server_spec().seen_cycle() <= now,
    ensures
        forall|j: int|
            0 <= j < collected(graph.node_at(egress as int).visible(now), now).len() ==> (#[trigger] collected(
                graph.node_at(egress as int).visible(now),
                now,
            )[j]).ticket_ready_at <= now,
{
    graph.lemma_node_inv(egress as int);
    let s = graph.node_at(egress as int).server_spec();
    s.lemma_visible_ready_by_now(now);
    lemma_collected_ready(graph.node_at(egress as int).visible(now), now);
}

/// Counters after the global-memory results of `s` complete at `now`.
pub open spec fn counted(c: GmemCounters, s: Seq<ServiceResult<CoreFlowPayload>>, now: Cycle) -> GmemCounters
    decreases s.len(),
{
    if s.len() == 0 {
        c
    } else {
        let rest = counted(c, s.drop_last(), now);
        match s.last().payload {
            CoreFlowPayload::Gmem(request) => rest.after_completion(request.bytes, now),
            CoreFlowPayload::Smem(_) => rest,
        }
    }
}

pub struct GmemSubgraph {
    ingress_node: NodeId,
    return_node: NodeId,
    completions: VecDeque<GmemCompletion>,
    next_id: u64,
    stats: GmemStats,
}

impl GmemSubgraph {
    pub closed spec fn ingress(&self) -> NodeId {
        self.ingress_node
    }

    pub closed spec fn egress(&self) -> NodeId {
        self.return_node
    }

    /// Completions collected and not yet taken, oldest first.
    pub closed spec fn queue(&self) -> Seq<GmemCompletion> {
        self.completions@
    }

    pub closed spec fn stat(&self) -> GmemCounters {
        self.stats@
    }

    /// Id given to the next request that comes without one.
    pub closed spec fn next_id_spec(&self) -> u64 {
        self.next_id
    }

    /// A front whose requests enter at `ingress_node` and whose completions
    /// leave from `return_node`.
    pub fn from_nodes(ingress_node: NodeId, return_node: NodeId) -> (r: Self)
        ensures
            r.ingress() == ingress_node,
            r.egress() == return_node,
            r.next_id_spec() == 0,
            r.queue().len() == 0,
            r.stat().is_zero(),
    {
        Self {
            ingress_node,
            return_node,
            completions: VecDeque::new(),
            next_id: 0,
            stats: GmemStats::default(),
        }
    }

    /// Offer `request` to the ingress node. A request without an id (zero)
    /// takes the next free one; an accepted id moves the next free id past
    /// it. A refused request is handed back with its id, to be retried at
    /// the next cycle (queue full) or once the node is free (busy).
    pub fn issue<F: EdgeFilter<CoreFlowPayload>, R: RouteFn<CoreFlowPayload>>(
        &mut self,
        graph: &mut FlowGraph<CoreFlowPayload, ServerNode<CoreFlowPayload>, F, R>,
        now: Cycle,
        request: GmemRequest,
    ) -> (r: GmemResult<GmemIssue>)
        requires
            old(graph).wf(),
            old(self).ingress() < old(graph).node_count(),
        ensures
            final(graph).wf(),
            old(graph).same_shape(final(graph)),
            final(self).ingress() == old(self).ingress(),
            final(self).egress() == old(self).egress(),
            final(self).queue() == old(self).queue(),
            ({
                let id = if request.id == 0 {
                    old(self).next_id_spec()
                } else {
                    request.id
                };
                let sent = GmemRequest { id, ..request };
                &&& r matches Ok(i) ==> {
                    &&& i.request_id == id
                    &&& final(self).next_id_spec() == (if id >= old(self).next_id_spec() {
                        sat_add(id as int, 1)
                    } else {
                        old(self).next_id_spec()
                    })
                    &&& final(self).stat() == old(self).stat().after_issue(request.bytes)
                }
                &&& r matches Err(rej) ==> {
                    &&& rej.request == sent
                    &&& final(self).next_id_spec() == old(self).next_id_spec()
                    &&& rej.reason == GmemRejectReason::Busy ==> final(self).stat() == old(self).stat().after_busy() && rej.retry_at >= sat_add(now as int, 1)
                    &&& rej.reason == GmemRejectReason::QueueFull ==> final(self).stat() == old(self).stat().after_queue_full() && rej.retry_at == sat_add(now as int, 1)
                }
                &&& forall|n: int|
                    0 <= n < old(graph).node_count() && n != old(self).ingress() ==> #[trigger] final(graph).node_at(n)
                        == old(graph).node_at(n)
                &&& ({
                    let q = old(graph).node_at(old(self).ingress() as int).server_spec();
                    let q2 = final(graph).node_at(old(self).ingress() as int).server_spec();
                    &&& q.is_full() ==> (r matches Err(rej) && rej.reason == GmemRejectReason::QueueFull
                        && q.refused_full(&q2))
                    &&& !q.is_full() && q.is_warming(now) ==> (r matches Err(rej) && rej.reason
                        == GmemRejectReason::Busy && rej.retry_at == normalize_retry_spec(now, q.warmup())
                        && q.refused_busy(&q2))
                    &&& !q.is_full() && !q.is_warming(now) ==> (r matches Ok(i) && q.accepted(
                        &q2,
                        now,
                        CoreFlowPayload::Gmem(sent),
                        request.bytes,
                        i.ticket,
                    ))
                })
            }),
    {
        let assigned_id = if request.id == 0 {
            self.next_id
        } else {
            request.id
        };
        let mut request = request;
        request.id = assigned_id;
        let bytes = request.bytes;
        let payload = CoreFlowPayload::Gmem(request);
        let service_req = ServiceRequest::new(payload, bytes);
        match graph.try_put(self.ingress_node, now, service_req) {
            Ok(ticket) => {
                if assigned_id >= self.next_id {
                    self.next_id = assigned_id.saturating_add(1);
                }
                self.stats.record_issue(bytes);
                Ok(GmemIssue { request_id: assigned_id, ticket })
            },
            Err(bp) => match bp {
                Backpressure::Busy { request, available_at } => {
                    self.stats.record_busy_reject();
                    let retry_at = normalize_retry(now, available_at);
                    let request = extract_gmem_request(request);
                    Err(GmemReject { request, retry_at, reason: GmemRejectReason::Busy })
                },
                Backpressure::QueueFull { request, .. } => {
                    self.stats.record_queue_full_reject();
                    let retry_at = now.saturating_add(1);
                    let request = extract_gmem_request(request);
                    Err(GmemReject { request, retry_at, reason: GmemRejectReason::QueueFull })
                },
            },
        }
    }

    /// Take every completion that the return node shows at `now`, record
    /// the global-memory ones, and note the length of the completion queue.
    pub fn collect_completions<F: EdgeFilter<CoreFlowPayload>, R: RouteFn<CoreFlowPayload>>(
        &mut self,
        graph: &mut FlowGraph<CoreFlowPayload, ServerNode<CoreFlowPayload>, F, R>,
        now: Cycle,
    )
        requires
            old(graph).wf(),
            old(self).egress() < old(graph).node_count(),
        ensures
            final(graph).wf(),
            old(graph).same_shape(final(graph)),
            final(self).ingress() == old(self).ingress(),
            final(self).egress() == old(self).egress(),
            final(self).next_id_spec() == old(self).next_id_spec(),
            ({
                let vis = old(graph).node_at(old(self).egress() as int).visible(now);
                &&& final(self).queue() == old(self).queue() + collected(vis, now)
                &&& final(self).stat() == counted(old(self).stat(), vis, now).after_queue_len(
                    final(self).queue().len() as usize,
                )
            }),
    {
        let ghost vis0 = graph.node_at(self.return_node as int).visible(now);
        let ghost c0 = self.completions@;
        let ghost s0 = self.stats@;
        let node = graph.node_mut(self.return_node);
        let ghost mut i: int = 0;
        loop
            invariant
                node.inv(),
                self.ingress_node == old(self).ingress_node,
                self.return_node == old(self).return_node,
                self.next_id == old(self).next_id,
                0 <= i <= vis0.len(),
                node.visible(now) == vis0.skip(i),
                self.completions@ == c0 + collected(vis0.take(i), now),
                self.stats@ == counted(s0, vis0.take(i), now),
            ensures
                i == vis0.len(),
                node.inv(),
                self.ingress_node == old(self).ingress_node,
                self.return_node == old(self).return_node,
                self.next_id == old(self).next_id,
                self.completions@ == c0 + collected(vis0.take(i), now),
                self.stats@ == counted(s0, vis0.take(i), now),
            decreases vis0.len() - i,
        {
            let ghost before = node.visible(now);
            match node.take_ready(now) {
                Some(result) => {
                    proof {
                        assert(result == vis0[i]);
                        assert(vis0.take(i + 1).drop_last() =~= vis0.take(i));
                        assert(vis0.take(i + 1).last() == vis0[i]);
                        assert(before.drop_first() =~= vis0.skip(i + 1));
                    }
                    match result.payload {
                        CoreFlowPayload::Gmem(request) => {
                            self.stats.record_completion(request.bytes, now);
                            let ready_at = result.ticket.ready_at();
                            self.completions.push_back(
                                GmemCompletion { request, ticket_ready_at: ready_at, completed_at: now },
                            );
                        },
                        CoreFlowPayload::Smem(_) => {},
                    }
                    proof {
                        i = i + 1;
                    }
                },
                None => {
                    break;
                },
            }
        }
        proof {
            assert(vis0.take(i) =~= vis0);
        }
        let len = self.completions.len();
        self.stats.update_completion_queue(len);
    }
    /// Hand out the oldest collected completion.
    pub fn pop_completion(&mut self) -> (r: Option<GmemCompletion>)
        ensures
            final(self).ingress() == old(self).ingress(),
            final(self).egress() == old(self).egress(),
            final(self).next_id_spec() == old(self).next_id_spec(),
            final(self).stat() == old(self).stat(),
            old(self).queue().len() == 0 ==> r is None && final(self).queue() == old(self).queue(),
            old(self).queue().len() > 0 ==> r == Some(old(self).queue()[0]) && final(self).queue()
                == old(self).queue().drop_first(),
    {
        self.completions.pop_front()
    }

    pub fn pending_completions(&self) -> (r: usize)
        ensures
            r == self.queue().len(),
    {
        self.completions.len()
    }

    pub fn stats(&self) -> (r: GmemStats)
        ensures
            r@ == self.stat(),
    {
        self.stats
    }
}

} // verus!
