//! A graph of timed nodes joined by bounded links. Each tick every node
//! advances, completions move from nodes into their outgoing links
//! (optionally filtered or routed by payload), and links deliver into their
//! destination nodes, backing off when the destination refuses.

use std::collections::VecDeque;

use crate::timeflow::server_node::ServerNode;
use crate::timeflow::types::{LinkId, NodeId};
use crate::timeq::{
    normalize_retry, normalize_retry_spec, sat_add, sat_add32, sat_sub, Backpressure, Cycle, ServiceRequest,
    ServiceResult, Ticket,
};
use vstd::prelude::*;

verus! {

#[derive(Debug, Clone, Copy, PartialEq, Eq, Structural)]
pub enum LinkBackpressure {
    Capacity { capacity: usize },
    Bytes { capacity: u32 },
}

#[derive(Debug)]
struct LinkEntry<T> {
    result: ServiceResult<T>,
    size_bytes: u32,
}

/// A bounded FIFO between two nodes, limited in entries and optionally in
/// bytes.
#[derive(Debug)]
pub struct Link<T> {
    entries_capacity: usize,
    bytes_capacity: Option<u32>,
    bytes_in_use: u32,
    queue: VecDeque<LinkEntry<T>>,
}

impl<T> Link<T> {
    /// The results held by the link, oldest first.
    pub closed spec fn items(&self) -> Seq<ServiceResult<T>> {
        self.queue@.map_values(|e: LinkEntry<T>| e.result)
    }

    /// The sizes charged for the held results, oldest first.
    pub closed spec fn sizes(&self) -> Seq<u32> {
        self.queue@.map_values(|e: LinkEntry<T>| e.size_bytes)
    }

    pub closed spec fn capacity_spec(&self) -> usize {
        self.entries_capacity
    }

    pub closed spec fn byte_limit(&self) -> Option<u32> {
        self.bytes_capacity
    }

    pub closed spec fn bytes_used(&self) -> u32 {
        self.bytes_in_use
    }

    pub open spec fn wf(&self) -> bool {
        self.capacity_spec() > 0
    }

    /// Whether an entry of `size` bytes fits.
    pub open spec fn accepts(&self, size: u32) -> bool {
        &&& self.items().len() < self.capacity_spec()
        &&& match self.byte_limit() {
            Some(limit) => self.bytes_used() + size <= limit,
            None => true,
        }
    }

    pub fn new(entries_capacity: usize) -> (r: Self)
        requires
            entries_capacity > 0,
        ensures
            r.wf(),
            r.items().len() == 0,
            r.capacity_spec() == entries_capacity,
            r.byte_limit() is None,
            r.bytes_used() == 0,
    {
        Self::with_byte_limit(entries_capacity, None)
    }

    pub fn with_byte_limit(entries_capacity: usize, bytes_capacity: Option<u32>) -> (r: Self)
        requires
            entries_capacity > 0,
        ensures
            r.wf(),
            r.items().len() == 0,
            r.sizes().len() == 0,
            r.capacity_spec() == entries_capacity,
            r.byte_limit() == bytes_capacity,
            r.bytes_used() == 0,
    {
        let r = Self {
            entries_capacity,
            bytes_capacity,
            bytes_in_use: 0,
            queue: VecDeque::with_capacity(entries_capacity),
        };
        assert(r.items() =~= Seq::<ServiceResult<T>>::empty());
        assert(r.sizes() =~= Seq::<u32>::empty());
        r
    }

    pub fn len(&self) -> (r: usize)
        ensures
            r == self.items().len(),
    {
        self.queue.len()
    }

    pub fn is_empty(&self) -> (r: bool)
        ensures
            r == (self.items().len() == 0),
    {
        self.queue.len() == 0
    }

    fn can_accept(&self, size_bytes: u32) -> (r: bool)
        ensures
            r == self.accepts(size_bytes),
    {
        if self.queue.len() >= self.entries_capacity {
            return false;
        }
        match self.bytes_capacity {
            Some(limit) => (self.bytes_in_use as u64) + (size_bytes as u64) <= (limit as u64),
            None => true,
        }
    }

    /// Append a result; refused when the link holds its maximum number of
    /// entries, or when the bytes in use plus the result's size would
    /// exceed the byte limit.
    pub fn try_push(&mut self, result: ServiceResult<T>) -> (r: Result<(), LinkBackpressure>)
        ensures
            final(self).capacity_spec() == old(self).capacity_spec(),
            final(self).byte_limit() == old(self).byte_limit(),
            old(self).items().len() >= old(self).capacity_spec() ==> r == Err::<
                (),
                LinkBackpressure,
            >(LinkBackpressure::Capacity { capacity: old(self).capacity_spec() }) && *final(self)
                == *old(self),
            old(self).items().len() < old(self).capacity_spec() && !old(self).accepts(
                result.ticket.size(),
            ) ==> r == Err::<(), LinkBackpressure>(
                LinkBackpressure::Bytes { capacity: old(self).byte_limit()->0 },
            ) && *final(self) == *old(self),
            old(self).accepts(result.ticket.size()) ==> {
                &&& r is Ok
                &&& final(self).items() == old(self).items().push(result)
                &&& final(self).sizes() == old(self).sizes().push(result.ticket.size())
                &&& final(self).bytes_used() == sat_add32(
                    old(self).bytes_used() as int,
                    result.ticket.size() as int,
                )
            },
    {
        let size_bytes = result.ticket.size_bytes();
        if self.queue.len() >= self.entries_capacity {
            return Err(LinkBackpressure::Capacity { capacity: self.entries_capacity });
        }
        if let Some(limit) = self.bytes_capacity {
            if (self.bytes_in_use as u64) + (size_bytes as u64) > (limit as u64) {
                return Err(LinkBackpressure::Bytes { capacity: limit });
            }
        }
        self.push_back_entry(LinkEntry { result, size_bytes });
        Ok(())
    }

    fn push_back_entry(&mut self, entry: LinkEntry<T>)
        ensures
            final(self).capacity_spec() == old(self).capacity_spec(),
            final(self).byte_limit() == old(self).byte_limit(),
            final(self).items() == old(self).items().push(entry.result),
            final(self).sizes() == old(self).sizes().push(entry.size_bytes),
            final(self).bytes_used() == sat_add32(
                old(self).bytes_used() as int,
                entry.size_bytes as int,
            ),
    {
        let ghost q0 = self.queue@;
        let size = entry.size_bytes;
        self.queue.push_back(entry);
        self.bytes_in_use = self.bytes_in_use.saturating_add(size);
        proof {
            assert(self.queue@.map_values(|e: LinkEntry<T>| e.result) =~= q0.map_values(
                |e: LinkEntry<T>| e.result,
            ).push(entry.result));
            assert(self.queue@.map_values(|e: LinkEntry<T>| e.size_bytes) =~= q0.map_values(
                |e: LinkEntry<T>| e.size_bytes,
            ).push(entry.size_bytes));
        }
    }

    fn pop_front(&mut self) -> (r: Option<LinkEntry<T>>)
        ensures
            final(self).capacity_spec() == old(self).capacity_spec(),
            final(self).byte_limit() == old(self).byte_limit(),
            old(self).items().len() == 0 ==> r is None && final(self).items() == old(self).items()
                && final(self).sizes() == old(self).sizes() && final(self).bytes_used() == old(
                self,
            ).bytes_used(),
            old(self).items().len() > 0 ==> {
                &&& r matches Some(e) && e.result == old(self).items()[0] && e.size_bytes == old(
                    self,
                ).sizes()[0]
                    && final(self).bytes_used() == sat_sub(
                    old(self).bytes_used() as int,
                    e.size_bytes as int,
                )
                &&& final(self).items() == old(self).items().drop_first()
                &&& final(self).sizes() == old(self).sizes().drop_first()
            },
    {
        let ghost q0 = self.queue@;
        let entry = match self.queue.pop_front() {
            Some(e) => e,
            None => return None,
        };
        self.bytes_in_use = self.bytes_in_use.saturating_sub(entry.size_bytes);
        proof {
            assert(self.queue@.map_values(|e: LinkEntry<T>| e.result) =~= q0.map_values(
                |e: LinkEntry<T>| e.result,
            ).drop_first());
            assert(self.queue@.map_values(|e: LinkEntry<T>| e.size_bytes) =~= q0.map_values(
                |e: LinkEntry<T>| e.size_bytes,
            ).drop_first());
        }
        Some(entry)
    }

    fn push_front(&mut self, entry: LinkEntry<T>)
        ensures
            final(self).capacity_spec() == old(self).capacity_spec(),
            final(self).byte_limit() == old(self).byte_limit(),
            final(self).items() == seq![entry.result] + old(self).items(),
            final(self).sizes() == seq![entry.size_bytes] + old(self).sizes(),
            final(self).bytes_used() == sat_add32(
                old(self).bytes_used() as int,
                entry.size_bytes as int,
            ),
    {
        let ghost q0 = self.queue@;
        self.bytes_in_use = self.bytes_in_use.saturating_add(entry.size_bytes);
        self.queue.push_front(entry);
        proof {
            assert(self.queue@.map_values(|e: LinkEntry<T>| e.result) =~= seq![entry.result]
                + q0.map_values(|e: LinkEntry<T>| e.result));
            assert(self.queue@.map_values(|e: LinkEntry<T>| e.size_bytes) =~= seq![
                entry.size_bytes,
            ] + q0.map_values(|e: LinkEntry<T>| e.size_bytes));
        }
    }
}

#[derive(Debug, Clone, Copy)]
pub struct EdgeStats {
    pub entries_pushed: u64,
    pub entries_delivered: u64,
    pub downstream_backpressure: u64,
    pub last_delivery_cycle: Option<Cycle>,
}

impl Default for EdgeStats {
    fn default() -> (r: Self)
        ensures
            r.is_fresh(),
    {
        Self {
            entries_pushed: 0,
            entries_delivered: 0,
            downstream_backpressure: 0,
            last_delivery_cycle: None,
        }
    }
}

impl EdgeStats {
    pub open spec fn is_fresh(self) -> bool {
        &&& self.entries_pushed == 0
        &&& self.entries_delivered == 0
        &&& self.downstream_backpressure == 0
        &&& self.last_delivery_cycle is None
    }

    /// `post` counts at least what `self` counted.
    pub open spec fn grows_to(self, post: Self) -> bool {
        &&& self.entries_pushed <= post.entries_pushed
        &&& self.entries_delivered <= post.entries_delivered
        &&& self.downstream_backpressure <= post.downstream_backpressure
    }
}

/// A node of a flow graph. Implementors keep `inv` across every call and
/// describe, through `next_ready`, the completion they would hand out at
/// a given cycle.
pub trait TimedNode<T> {
    spec fn inv(&self) -> bool;

    /// The completion that `peek_ready(now)` shows and `take_ready(now)`
    /// removes.
    spec fn next_ready(&self, now: Cycle) -> Option<ServiceResult<T>>;

    /// `post` and `r` are what offering `request` to `self` at `now` gives:
    /// the node's own rule for accepting or refusing a request.
    spec fn put_outcome(
        &self,
        post: &Self,
        now: Cycle,
        request: ServiceRequest<T>,
        r: Result<Ticket, Backpressure<T>>,
    ) -> bool;

    /// The node's name.
    spec fn node_name(&self) -> String;

    /// `post` is `self` advanced to `now`.
    spec fn ticked(&self, post: &Self, now: Cycle) -> bool;

    /// `post` is `self` after handing out its next completion at `now`.
    spec fn took(&self, post: &Self, now: Cycle) -> bool;

    /// `post` is `self` after showing its next completion at `now`.
    spec fn peeked(&self, post: &Self, now: Cycle) -> bool;

    fn name(&self) -> (r: &str)
        ensures
            r@ == self.node_name()@,
    ;

    /// Offer a request; a refused request is handed back unchanged.
    fn try_put(&mut self, now: Cycle, request: ServiceRequest<T>) -> (r: Result<
        Ticket,
        Backpressure<T>,
    >)
        requires
            old(self).inv(),
        ensures
            final(self).inv(),
            r matches Err(bp) ==> bp.request_spec() == request,
            old(self).put_outcome(final(self), now, request, r),
    ;

    fn tick(&mut self, now: Cycle)
        requires
            old(self).inv(),
        ensures
            final(self).inv(),
            old(self).ticked(final(self), now),
    ;

    /// Observe the next completion without consuming it.
    fn peek_ready(&mut self, now: Cycle) -> (r: Option<&ServiceResult<T>>)
        requires
            old(self).inv(),
        ensures
            final(self).inv(),
            final(self).next_ready(now) == old(self).next_ready(now),
            old(self).peeked(final(self), now),
            match r {
                Some(x) => old(self).next_ready(now) == Some(*x),
                None => old(self).next_ready(now) is None,
            },
    ;

    /// Remove and return the next completion.
    fn take_ready(&mut self, now: Cycle) -> (r: Option<ServiceResult<T>>)
        requires
            old(self).inv(),
        ensures
            final(self).inv(),
            r == old(self).next_ready(now),
            old(self).took(final(self), now),
    ;

    fn outstanding(&self) -> usize
        requires
            self.inv(),
    ;
}

/// Decides whether a payload may take a filtered edge.
pub trait EdgeFilter<T> {
    spec fn admits(&self, payload: &T) -> bool;

    fn accepts(&self, payload: &T) -> (r: bool)
        ensures
            r == self.admits(payload),
    ;
}

/// Picks the output index of a node for a payload.
pub trait RouteFn<T> {
    spec fn target(&self, payload: &T) -> usize;

    fn route(&self, payload: &T) -> (r: usize)
        ensures
            r == self.target(payload),
    ;
}

/// The filter of graphs whose links take every payload.
#[derive(Debug, Clone, Copy)]
pub struct AcceptAll;

impl<T> EdgeFilter<T> for AcceptAll {
    open spec fn admits(&self, payload: &T) -> bool {
        true
    }

    fn accepts(&self, payload: &T) -> (r: bool) {
        true
    }
}

/// The router of graphs whose nodes are never routed.
#[derive(Debug, Clone, Copy)]
pub struct NoRoute;

impl<T> RouteFn<T> for NoRoute {
    open spec fn target(&self, payload: &T) -> usize {
        0
    }

    fn route(&self, payload: &T) -> (r: usize) {
        0
    }
}

struct Edge<T, F> {
    _name: String,
    buffer: Link<T>,
    src: NodeId,
    dst: NodeId,
    output_idx: usize,
    stats: EdgeStats,
    next_retry_cycle: Cycle,
    predicate: Option<F>,
}

impl<T, F> Edge<T, F> {
    fn record_push(&mut self)
        ensures
            final(self).stats.entries_pushed == sat_add(old(self).stats.entries_pushed as int, 1),
            final(self).stats.entries_delivered == old(self).stats.entries_delivered,
            final(self).stats.downstream_backpressure == old(self).stats.downstream_backpressure,
            final(self).stats.last_delivery_cycle == old(self).stats.last_delivery_cycle,
            final(self).buffer == old(self).buffer,
            final(self).src == old(self).src,
            final(self).dst == old(self).dst,
            final(self).output_idx == old(self).output_idx,
            final(self).next_retry_cycle == old(self).next_retry_cycle,
            final(self).predicate == old(self).predicate,
    {
        self.stats.entries_pushed = self.stats.entries_pushed.saturating_add(1);
    }
}

impl<T, F> Edge<T, F> {
    fn set_retry(&mut self, at: Cycle)
        ensures
            final(self).next_retry_cycle == at,
            final(self).stats == old(self).stats,
            final(self).buffer == old(self).buffer,
            final(self).src == old(self).src,
            final(self).dst == old(self).dst,
            final(self).output_idx == old(self).output_idx,
            final(self).predicate == old(self).predicate,
    {
        self.next_retry_cycle = at;
    }

    fn record_delivery(&mut self, now: Cycle)
        ensures
            final(self).stats.entries_delivered == sat_add(old(self).stats.entries_delivered as int, 1),
            final(self).stats.entries_pushed == old(self).stats.entries_pushed,
            final(self).stats.downstream_backpressure == old(self).stats.downstream_backpressure,
            final(self).stats.last_delivery_cycle == Some(now),
            final(self).next_retry_cycle == now,
            final(self).buffer == old(self).buffer,
            final(self).src == old(self).src,
            final(self).dst == old(self).dst,
            final(self).output_idx == old(self).output_idx,
            final(self).predicate == old(self).predicate,
    {
        self.stats.entries_delivered = self.stats.entries_delivered.saturating_add(1);
        self.stats.last_delivery_cycle = Some(now);
        self.next_retry_cycle = now;
    }

    fn record_backpressure(&mut self, retry_at: Cycle)
        ensures
            final(self).stats.downstream_backpressure == sat_add(
                old(self).stats.downstream_backpressure as int,
                1,
            ),
            final(self).stats.entries_pushed == old(self).stats.entries_pushed,
            final(self).stats.entries_delivered == old(self).stats.entries_delivered,
            final(self).stats.last_delivery_cycle == old(self).stats.last_delivery_cycle,
            final(self).next_retry_cycle == retry_at,
            final(self).buffer == old(self).buffer,
            final(self).src == old(self).src,
            final(self).dst == old(self).dst,
            final(self).output_idx == old(self).output_idx,
            final(self).predicate == old(self).predicate,
    {
        self.stats.downstream_backpressure = self.stats.downstream_backpressure.saturating_add(1);
        self.next_retry_cycle = retry_at;
    }
}

struct GraphNode<N, R> {
    name: String,
    node: N,
    outputs: Vec<LinkId>,
    inputs: Vec<LinkId>,
    route_fn: Option<R>,
}

/// Nodes and the links between them. Links are served in the order they
/// were made.
pub struct FlowGraph<T, N = ServerNode<T>, F = AcceptAll, R = NoRoute> {
    nodes: Vec<GraphNode<N, R>>,
    edges: Vec<Edge<T, F>>,
}

impl<T, N: TimedNode<T>, F: EdgeFilter<T>, R: RouteFn<T>> FlowGraph<T, N, F, R> {
    pub closed spec fn node_count(&self) -> nat {
        self.nodes@.len()
    }

    pub closed spec fn edge_count(&self) -> nat {
        self.edges@.len()
    }

    pub closed spec fn edge_src(&self, e: int) -> NodeId {
        self.edges@[e].src
    }

    pub closed spec fn edge_dst(&self, e: int) -> NodeId {
        self.edges@[e].dst
    }

    /// Position of edge `e` among the outputs of its source node.
    pub closed spec fn edge_output(&self, e: int) -> usize {
        self.edges@[e].output_idx
    }

    pub closed spec fn edge_stat(&self, e: int) -> EdgeStats {
        self.edges@[e].stats
    }

    pub closed spec fn node_label(&self, n: int) -> String {
        self.nodes@[n].name
    }

    pub closed spec fn node_at(&self, n: int) -> N {
        self.nodes@[n].node
    }

    /// The router of node `n`, if it has one.
    pub closed spec fn node_route(&self, n: int) -> Option<R> {
        self.nodes@[n].route_fn
    }

    pub closed spec fn wf(&self) -> bool {
        &&& forall|e: int|
            0 <= e < self.edges@.len() ==> {
                &&& #[trigger] self.edges@[e].src < self.nodes@.len()
                &&& self.edges@[e].dst < self.nodes@.len()
                &&& self.edges@[e].buffer.wf()
                &&& self.edges@[e].buffer.items().len() <= self.edges@[e].buffer.capacity_spec()
            }
        &&& forall|n: int| 0 <= n < self.nodes@.len() ==> (#[trigger] self.nodes@[n]).node.inv()
    }

    /// The first `count` links of `post` are those of `self`.
    pub open spec fn keeps_edges(&self, post: &Self, count: nat) -> bool {
        &&& forall|e: int| 0 <= e < count ==> #[trigger] post.edge_src(e) == self.edge_src(e)
        &&& forall|e: int| 0 <= e < count ==> #[trigger] post.edge_dst(e) == self.edge_dst(e)
        &&& forall|e: int| 0 <= e < count ==> #[trigger] post.edge_output(e) == self.edge_output(e)
        &&& forall|e: int| 0 <= e < count ==> #[trigger] post.edge_stat(e) == self.edge_stat(e)
    }

    /// The first `count` nodes of `post` carry the names of those of `self`.
    pub open spec fn keeps_labels(&self, post: &Self, count: nat) -> bool {
        forall|n: int| 0 <= n < count ==> #[trigger] post.node_label(n) == self.node_label(n)
    }

    /// The first `count` nodes of `post` are those of `self`.
    pub open spec fn keeps_nodes(&self, post: &Self, count: nat) -> bool {
        &&& self.keeps_labels(post, count)
        &&& forall|n: int| 0 <= n < count ==> #[trigger] post.node_at(n) == self.node_at(n)
    }

    /// The first `count` nodes of `post` have the routers of those of `self`.
    pub open spec fn keeps_routes(&self, post: &Self, count: nat) -> bool {
        forall|n: int| 0 <= n < count ==> #[trigger] post.node_route(n) == self.node_route(n)
    }

    /// The node and link structure of `post` is that of `self`.
    pub open spec fn same_shape(&self, post: &Self) -> bool {
        &&& post.node_count() == self.node_count()
        &&& post.edge_count() == self.edge_count()
        &&& forall|e: int|
            0 <= e < self.edge_count() ==> {
                &&& #[trigger] post.edge_src(e) == self.edge_src(e)
                &&& post.edge_dst(e) == self.edge_dst(e)
                &&& post.edge_output(e) == self.edge_output(e)
            }
        &&& forall|n: int| 0 <= n < self.node_count() ==> #[trigger] post.node_label(n) == self.node_label(n)
    }

    pub fn new() -> (r: Self)
        ensures
            r.wf(),
            r.node_count() == 0,
            r.edge_count() == 0,
    {
        Self { nodes: Vec::new(), edges: Vec::new() }
    }

    /// Add a node; its id is the number of nodes added before it.
    pub fn add_node(&mut self, node: N) -> (id: NodeId)
        requires
            old(self).wf(),
            node.inv(),
        ensures
            final(self).wf(),
            id == old(self).node_count(),
            final(self).node_count() == old(self).node_count() + 1,
            final(self).node_at(id as int) == node,
            final(self).node_label(id as int)@ == node.node_name()@,
            final(self).edge_count() == old(self).edge_count(),
            old(self).keeps_edges(final(self), old(self).edge_count()),
            old(self).keeps_labels(final(self), old(self).node_count()),
            old(self).keeps_nodes(final(self), old(self).node_count()),
            old(self).keeps_routes(final(self), old(self).node_count()),
            final(self).node_route(id as int) is None,
    {
        let name = node.name().to_owned();
        let id = self.nodes.len();
        self.nodes.push(
            GraphNode { name, node, outputs: Vec::new(), inputs: Vec::new(), route_fn: None },
        );
        proof {
            assert forall|n: int| 0 <= n < self.nodes@.len() implies (
            #[trigger] self.nodes@[n]).node.inv() by {
                if n < id {
                    assert(self.nodes@[n] == old(self).nodes@[n]);
                }
            }
        }
        id
    }

    fn connect_internal(
        &mut self,
        src: NodeId,
        dst: NodeId,
        link_name: String,
        buffer: Link<T>,
        predicate: Option<F>,
    ) -> (id: LinkId)
        requires
            old(self).wf(),
            src < old(self).node_count(),
            dst < old(self).node_count(),
            buffer.wf(),
            buffer.items().len() == 0,
        ensures
            final(self).wf(),
            id == old(self).edge_count(),
            final(self).node_count() == old(self).node_count(),
            final(self).edge_count() == old(self).edge_count() + 1,
            final(self).edge_src(id as int) == src,
            final(self).edge_dst(id as int) == dst,
            final(self).edge_stat(id as int).is_fresh(),
            old(self).keeps_edges(final(self), old(self).edge_count()),
            old(self).keeps_nodes(final(self), old(self).node_count()),
            old(self).keeps_routes(final(self), old(self).node_count()),
    {
        let id = self.edges.len();
        let output_idx = self.nodes[src].outputs.len();
        self.edges.push(
            Edge {
                _name: link_name,
                buffer,
                src,
                dst,
                output_idx,
                stats: EdgeStats::default(),
                next_retry_cycle: 0,
                predicate,
            },
        );
        let ghost nodes0 = self.nodes@;
        let mut outs = Vec::new();
        std::mem::swap(&mut outs, &mut self.nodes[src].outputs);
        outs.push(id);
        std::mem::swap(&mut outs, &mut self.nodes[src].outputs);
        let mut ins = Vec::new();
        std::mem::swap(&mut ins, &mut self.nodes[dst].inputs);
        ins.push(id);
        std::mem::swap(&mut ins, &mut self.nodes[dst].inputs);
        proof {
            assert forall|n: int| 0 <= n < self.nodes@.len() implies (
            #[trigger] self.nodes@[n]).node.inv() by {
                assert(self.nodes@[n].node == nodes0[n].node);
            }
            assert forall|n: int| 0 <= n < old(self).node_count() implies {
                &&& #[trigger] self.node_label(n) == old(self).node_label(n)
                &&& self.node_at(n) == old(self).node_at(n)
            } by {
                assert(self.nodes@[n].name == nodes0[n].name);
                assert(self.nodes@[n].node == nodes0[n].node);
            }
            assert forall|n: int| 0 <= n < old(self).node_count() implies #[trigger] self.node_route(n)
                == old(self).node_route(n) by {
                assert(self.nodes@[n].route_fn == nodes0[n].route_fn);
            }
            assert forall|e: int| 0 <= e < self.edges@.len() implies {
                &&& #[trigger] self.edges@[e].src < self.nodes@.len()
                &&& self.edges@[e].dst < self.nodes@.len()
                &&& self.edges@[e].buffer.wf()
                &&& self.edges@[e].buffer.items().len() <= self.edges@[e].buffer.capacity_spec()
            } by {
                if e < id {
                    assert(self.edges@[e] == old(self).edges@[e]);
                }
            }
        }
        id
    }

    /// Connect `src` to `dst` through `buffer`; the new link's id is the
    /// number of links made before it.
    pub fn connect(&mut self, src: NodeId, dst: NodeId, link_name: impl Into<String>, buffer: Link<T>) -> (id: LinkId)
        requires
            old(self).wf(),
            src < old(self).node_count(),
            dst < old(self).node_count(),
            buffer.wf(),
            buffer.items().len() == 0,
        ensures
            final(self).wf(),
            id == old(self).edge_count(),
            final(self).node_count() == old(self).node_count(),
            final(self).edge_count() == old(self).edge_count() + 1,
            final(self).edge_src(id as int) == src,
            final(self).edge_dst(id as int) == dst,
            final(self).edge_stat(id as int).is_fresh(),
            old(self).keeps_edges(final(self), old(self).edge_count()),
            old(self).keeps_nodes(final(self), old(self).node_count()),
            old(self).keeps_routes(final(self), old(self).node_count()),
    {
        let name: String = link_name.into();
        self.connect_internal(src, dst, name, buffer, None)
    }

    /// Like `connect`, but only payloads that `predicate` admits take the
    /// link (unless the source node is routed).
    pub fn connect_filtered(
        &mut self,
        src: NodeId,
        dst: NodeId,
        link_name: impl Into<String>,
        buffer: Link<T>,
        predicate: F,
    ) -> (id: LinkId)
        requires
            old(self).wf(),
            src < old(self).node_count(),
            dst < old(self).node_count(),
            buffer.wf(),
            buffer.items().len() == 0,
        ensures
            final(self).wf(),
            id == old(self).edge_count(),
            final(self).node_count() == old(self).node_count(),
            final(self).edge_count() == old(self).edge_count() + 1,
            final(self).edge_src(id as int) == src,
            final(self).edge_dst(id as int) == dst,
            final(self).edge_stat(id as int).is_fresh(),
            old(self).keeps_edges(final(self), old(self).edge_count()),
            old(self).keeps_nodes(final(self), old(self).node_count()),
    {
        let name: String = link_name.into();
        self.connect_internal(src, dst, name, buffer, Some(predicate))
    }

    /// Route the completions of `node_id` to the output whose position
    /// `route_fn` returns (no effect for an unknown node).
    pub fn set_route_fn(&mut self, node_id: NodeId, route_fn: R)
        requires
            old(self).wf(),
        ensures
            final(self).wf(),
            old(self).same_shape(final(self)),
            forall|e: int|
                0 <= e < old(self).edge_count() ==> #[trigger] final(self).edge_stat(e) == old(
                    self,
                ).edge_stat(e),
            forall|n: int|
                0 <= n < old(self).node_count() ==> #[trigger] final(self).node_at(n) == old(
                    self,
                ).node_at(n),
            forall|n: int|
                0 <= n < old(self).node_count() && n != node_id ==> #[trigger] final(self).node_route(n)
                    == old(self).node_route(n),
            node_id < old(self).node_count() ==> final(self).node_route(node_id as int) == Some(route_fn),
            node_id >= old(self).node_count() ==> *final(self) == *old(self),
    {
        if node_id < self.nodes.len() {
            let ghost nodes0 = self.nodes@;
            let mut slot = Some(route_fn);
            std::mem::swap(&mut slot, &mut self.nodes[node_id].route_fn);
            proof {
                assert forall|n: int| 0 <= n < self.nodes@.len() implies (
                #[trigger] self.nodes@[n]).node.inv() by {
                    assert(self.nodes@[n].node == nodes0[n].node);
                }
                assert forall|n: int| 0 <= n < self.nodes@.len() implies {
                    &&& #[trigger] self.node_label(n) == old(self).node_label(n)
                    &&& self.node_at(n) == old(self).node_at(n)
                } by {
                    assert(self.nodes@[n].name == nodes0[n].name);
                    assert(self.nodes@[n].node == nodes0[n].node);
                }
                assert forall|n: int| 0 <= n < self.nodes@.len() && n != node_id implies #[trigger] self.node_route(n)
                    == old(self).node_route(n) by {
                    assert(self.nodes@[n] == nodes0[n]);
                }
            }
        }
    }

    /// Offer a request to node `node_id`.
    pub fn try_put(&mut self, node_id: NodeId, now: Cycle, request: ServiceRequest<T>) -> (r: Result<
        Ticket,
        Backpressure<T>,
    >)
        requires
            old(self).wf(),
            node_id < old(self).node_count(),
        ensures
            final(self).wf(),
            old(self).same_shape(final(self)),
            r matches Err(bp) ==> bp.request_spec() == request,
            forall|e: int|
                0 <= e < old(self).edge_count() ==> #[trigger] final(self).edge_stat(e) == old(
                    self,
                ).edge_stat(e),
            forall|n: int|
                0 <= n < old(self).node_count() && n != node_id ==> #[trigger] final(self).node_at(n)
                    == old(self).node_at(n),
            old(self).node_at(node_id as int).put_outcome(&final(self).node_at(node_id as int), now, request, r),
    {
        let ghost nodes0 = self.nodes@;
        let r = self.nodes[node_id].node.try_put(now, request);
        proof {
            assert forall|n: int| 0 <= n < self.nodes@.len() implies (
            #[trigger] self.nodes@[n]).node.inv() by {
                if n != node_id {
                    assert(self.nodes@[n] == nodes0[n]);
                }
            }
            assert forall|n: int| 0 <= n < self.nodes@.len() implies #[trigger] self.node_label(n) == old(self).node_label(n) by {
                assert(self.nodes@[n].name == nodes0[n].name);
            }
        }
        r
    }

    /// Mutable access to node `node_id`.
    pub fn node_mut(&mut self, node_id: NodeId) -> (r: &mut N)
        requires
            node_id < old(self).node_count(),
        ensures
            *r == old(self).node_at(node_id as int),
            old(self).wf() ==> r.inv(),
            old(self).wf() && final(r).inv() ==> final(self).wf(),
            old(self).same_shape(final(self)),
            final(self).node_count() == old(self).node_count(),
            final(self).edge_count() == old(self).edge_count(),
            final(self).node_at(node_id as int) == *final(r),
            forall|n: int|
                0 <= n < old(self).node_count() && n != node_id ==> #[trigger] final(self).node_at(n)
                    == old(self).node_at(n),
            forall|e: int|
                0 <= e < old(self).edge_count() ==> #[trigger] final(self).edge_stat(e) == old(
                    self,
                ).edge_stat(e),
    {
        &mut self.nodes[node_id].node
    }

    /// Name of node `node_id`.
    pub fn node_name(&self, node_id: NodeId) -> (r: &str)
        requires
            node_id < self.node_count(),
        ensures
            r@ == self.node_label(node_id as int)@,
    {
        self.nodes[node_id].name.as_str()
    }

    /// Counters of link `link_id`.
    pub fn edge_stats(&self, link_id: LinkId) -> (r: &EdgeStats)
        requires
            link_id < self.edge_count(),
        ensures
            *r == self.edge_stat(link_id as int),
    {
        &self.edges[link_id].stats
    }

    /// Whether a link takes `payload`: a routed source sends it only to the
    /// output its router picks; otherwise the link's filter decides.
    pub open spec fn takes(route_fn: Option<R>, predicate: Option<F>, output_idx: usize, payload: &T) -> bool {
        match route_fn {
            Some(route) => route.target(payload) == output_idx,
            None => match predicate {
                Some(pred) => pred.admits(payload),
                None => true,
            },
        }
    }

    /// Size of the completion node `node` would hand out at `now`, and
    /// whether `edge` takes it.
    fn routing_decision(node: &mut GraphNode<N, R>, edge: &Edge<T, F>, now: Cycle) -> (r: Option<(u32, bool)>)
        requires
            old(node).node.inv(),
        ensures
            final(node).node.inv(),
            final(node).node.next_ready(now) == old(node).node.next_ready(now),
            old(node).node.peeked(&final(node).node, now),
            final(node).name == old(node).name,
            final(node).route_fn == old(node).route_fn,
            match old(node).node.next_ready(now) {
                Some(x) => r == Some(
                    (
                        x.ticket.size(),
                        Self::takes(old(node).route_fn, edge.predicate, edge.output_idx, &x.payload),
                    ),
                ),
                None => r is None,
            },
    {
        match node.node.peek_ready(now) {
            Some(result) => {
                let pass = match &node.route_fn {
                    Some(route) => route.route(&result.payload) == edge.output_idx,
                    None => match &edge.predicate {
                        Some(pred) => pred.accepts(&result.payload),
                        None => true,
                    },
                };
                Some((result.ticket.size_bytes(), pass))
            },
            None => None,
        }
    }

    /// Same node names and link endpoints, in the representation.
    closed spec fn shape_eq(&self, post: &Self) -> bool {
        &&& post.nodes@.len() == self.nodes@.len()
        &&& post.edges@.len() == self.edges@.len()
        &&& forall|k: int|
            0 <= k < self.edges@.len() ==> {
                &&& #[trigger] post.edges@[k].src == self.edges@[k].src
                &&& post.edges@[k].dst == self.edges@[k].dst
                &&& post.edges@[k].output_idx == self.edges@[k].output_idx
            }
        &&& forall|k: int| 0 <= k < self.nodes@.len() ==> #[trigger] post.nodes@[k].name == self.nodes@[k].name
    }

    proof fn lemma_shape_trans(a: &Self, b: &Self, c: &Self)
        requires
            a.shape_eq(b),
            b.shape_eq(c),
        ensures
            a.shape_eq(c),
    {
        assert forall|k: int| 0 <= k < a.edges@.len() implies {
            &&& #[trigger] c.edges@[k].src == a.edges@[k].src
            &&& c.edges@[k].dst == a.edges@[k].dst
            &&& c.edges@[k].output_idx == a.edges@[k].output_idx
        } by {
            assert(b.edges@[k].src == a.edges@[k].src);
            assert(c.edges@[k].src == b.edges@[k].src);
        }
        assert forall|k: int| 0 <= k < a.nodes@.len() implies #[trigger] c.nodes@[k].name == a.nodes@[k].name by {
            assert(b.nodes@[k].name == a.nodes@[k].name);
            assert(c.nodes@[k].name == b.nodes@[k].name);
        }
    }

    proof fn lemma_shape_public(a: &Self, b: &Self)
        requires
            a.shape_eq(b),
        ensures
            a.same_shape(b),
    {
        assert forall|e: int| 0 <= e < a.edge_count() implies {
            &&& #[trigger] b.edge_src(e) == a.edge_src(e)
            &&& b.edge_dst(e) == a.edge_dst(e)
            &&& b.edge_output(e) == a.edge_output(e)
        } by {
            assert(b.edges@[e].src == a.edges@[e].src);
        }
        assert forall|n: int| 0 <= n < a.node_count() implies #[trigger] b.node_label(n) == a.node_label(n) by {
            assert(b.nodes@[n].name == a.nodes@[n].name);
        }
    }

    /// `b` is `a` with node `n` replaced by one of the same name that keeps
    /// its invariant.
    proof fn lemma_node_step(a: &Self, b: &Self, n: int)
        requires
            a.wf(),
            0 <= n < a.nodes@.len(),
            b.edges@ == a.edges@,
            b.nodes@.len() == a.nodes@.len(),
            forall|k: int| 0 <= k < a.nodes@.len() && k != n ==> b.nodes@[k] == a.nodes@[k],
            b.nodes@[n].name == a.nodes@[n].name,
            b.nodes@[n].node.inv(),
        ensures
            b.wf(),
            a.shape_eq(b),
    {
        assert forall|k: int| 0 <= k < b.nodes@.len() implies (#[trigger] b.nodes@[k]).node.inv() by {
            if k != n {
                assert(b.nodes@[k] == a.nodes@[k]);
            }
        }
        assert forall|k: int| 0 <= k < a.nodes@.len() implies #[trigger] b.nodes@[k].name == a.nodes@[k].name by {
            if k != n {
                assert(b.nodes@[k] == a.nodes@[k]);
            }
        }
        assert forall|k: int| 0 <= k < b.edges@.len() implies {
            &&& #[trigger] b.edges@[k].src < b.nodes@.len()
            &&& b.edges@[k].dst < b.nodes@.len()
            &&& b.edges@[k].buffer.wf()
            &&& b.edges@[k].buffer.items().len() <= b.edges@[k].buffer.capacity_spec()
        } by {
            assert(b.edges@[k] == a.edges@[k]);
        }
    }

    /// `b` is `a` with link `e` replaced by one with the same endpoints,
    /// a well-formed buffer within capacity.
    proof fn lemma_edge_step(a: &Self, b: &Self, e: int)
        requires
            a.wf(),
            0 <= e < a.edges@.len(),
            b.nodes@ == a.nodes@,
            b.edges@.len() == a.edges@.len(),
            forall|k: int| 0 <= k < a.edges@.len() && k != e ==> b.edges@[k] == a.edges@[k],
            b.edges@[e].src == a.edges@[e].src,
            b.edges@[e].dst == a.edges@[e].dst,
            b.edges@[e].output_idx == a.edges@[e].output_idx,
            b.edges@[e].buffer.wf(),
            b.edges@[e].buffer.items().len() <= b.edges@[e].buffer.capacity_spec(),
        ensures
            b.wf(),
            a.shape_eq(b),
            forall|k: int| 0 <= k < a.edges@.len() && k != e ==> #[trigger] b.edges@[k].stats == a.edges@[k].stats,
    {
        assert forall|k: int| 0 <= k < b.nodes@.len() implies (#[trigger] b.nodes@[k]).node.inv() by {
            assert(b.nodes@[k] == a.nodes@[k]);
        }
        assert forall|k: int| 0 <= k < a.edges@.len() implies {
            &&& #[trigger] b.edges@[k].src == a.edges@[k].src
            &&& b.edges@[k].dst == a.edges@[k].dst
            &&& b.edges@[k].output_idx == a.edges@[k].output_idx
        } by {
            if k != e {
                assert(b.edges@[k] == a.edges@[k]);
            }
        }
        assert forall|k: int| 0 <= k < b.edges@.len() implies {
            &&& #[trigger] b.edges@[k].src < b.nodes@.len()
            &&& b.edges@[k].dst < b.nodes@.len()
            &&& b.edges@[k].buffer.wf()
            &&& b.edges@[k].buffer.items().len() <= b.edges@[k].buffer.capacity_spec()
        } by {
            if k != e {
                assert(b.edges@[k] == a.edges@[k]);
            }
        }
        assert forall|k: int| 0 <= k < a.edges@.len() && k != e implies #[trigger] b.edges@[k].stats == a.edges@[k].stats by {
            assert(b.edges@[k] == a.edges@[k]);
        }
    }

    /// Every link of `b` other than `e`, and every node other than `n`, is
    /// that of `a`.
    /// Every node of a well-formed graph keeps its own invariant.
    pub proof fn lemma_node_inv(&self, n: int)
        requires
            self.wf(),
            0 <= n < self.node_count(),
        ensures
            self.node_at(n).inv(),
    {
    }

    /// One thing done to a node at `now`: its next completion shown, or
    /// taken, or a request offered to it (accepted or refused by its rule).
    pub open spec fn node_step(a: N, b: N, now: Cycle) -> bool {
        ||| a.peeked(&b, now)
        ||| a.took(&b, now)
        ||| Self::put_step(a, b, now)
    }

    /// `b` is `a` after some request was offered to it at `now`.
    pub open spec fn put_step(a: N, b: N, now: Cycle) -> bool {
        exists|req: ServiceRequest<T>, r: Result<Ticket, Backpressure<T>>| #[trigger] a.put_outcome(&b, now, req, r)
    }

    /// Each state of `tr` follows from the one before by one step at `now`.
    pub open spec fn steps_ok(tr: Seq<N>, now: Cycle) -> bool {
        &&& tr.len() >= 1
        &&& forall|i: int| 0 <= i < tr.len() - 1 ==> #[trigger] Self::node_step(tr[i], tr[i + 1], now)
    }

    /// `b` follows from `a` by steps at `now`.
    pub open spec fn reaches(a: N, b: N, now: Cycle) -> bool {
        exists|tr: Seq<N>| #[trigger] Self::steps_ok(tr, now) && tr[0] == a && tr.last() == b
    }

    /// Every node of `post` follows from the same node of `self` by steps
    /// at `now`.
    pub open spec fn nodes_reached(&self, post: &Self, now: Cycle) -> bool {
        &&& post.node_count() == self.node_count()
        &&& forall|n: int| 0 <= n < self.node_count() ==> Self::reaches(self.node_at(n), #[trigger] post.node_at(n), now)
    }

    /// In a tick at `now`, every node advanced to `now` and then went
    /// through the steps that filled and drained the links.
    pub open spec fn nodes_stepped(&self, post: &Self, now: Cycle) -> bool {
        exists|mid: Self|
            #[trigger] self.nodes_reached_from(&mid, post, now)
    }

    /// `mid` holds every node of `self` advanced to `now`, and `post`
    /// follows from `mid` by steps.
    pub open spec fn nodes_reached_from(&self, mid: &Self, post: &Self, now: Cycle) -> bool {
        &&& mid.node_count() == self.node_count()
        &&& forall|n: int| 0 <= n < self.node_count() ==> self.node_at(n).ticked(&#[trigger] mid.node_at(n), now)
        &&& mid.nodes_reached(post, now)
    }

    proof fn lemma_reaches_refl(a: N, now: Cycle)
        ensures
            Self::reaches(a, a, now),
    {
        let tr = seq![a];
        assert(Self::steps_ok(tr, now));
    }

    proof fn lemma_reaches_step(a: N, b: N, c: N, now: Cycle)
        requires
            Self::reaches(a, b, now),
            Self::node_step(b, c, now),
        ensures
            Self::reaches(a, c, now),
    {
        let tr = choose|tr: Seq<N>| #[trigger] Self::steps_ok(tr, now) && tr[0] == a && tr.last() == b;
        let t2 = tr.push(c);
        assert forall|i: int| 0 <= i < t2.len() - 1 implies #[trigger] Self::node_step(t2[i], t2[i + 1], now) by {
            if i < tr.len() - 1 {
                assert(t2[i] == tr[i]);
                assert(t2[i + 1] == tr[i + 1]);
            } else {
                assert(t2[i] == b);
                assert(t2[i + 1] == c);
            }
        }
        assert(Self::steps_ok(t2, now));
    }

    proof fn lemma_reached_same_nodes(start: &Self, a: &Self, b: &Self, now: Cycle)
        requires
            start.nodes_reached(a, now),
            b.nodes@ == a.nodes@,
        ensures
            start.nodes_reached(b, now),
    {
        assert forall|n: int| 0 <= n < start.node_count() implies Self::reaches(start.node_at(n), #[trigger] b.node_at(n), now) by {
            assert(b.node_at(n) == a.node_at(n));
        }
    }

    proof fn lemma_reaches_trans(a: N, b: N, c: N, now: Cycle)
        requires
            Self::reaches(a, b, now),
            Self::reaches(b, c, now),
        ensures
            Self::reaches(a, c, now),
    {
        let t1 = choose|tr: Seq<N>| #[trigger] Self::steps_ok(tr, now) && tr[0] == a && tr.last() == b;
        let t2 = choose|tr: Seq<N>| #[trigger] Self::steps_ok(tr, now) && tr[0] == b && tr.last() == c;
        let t = t1 + t2.drop_first();
        assert forall|i: int| 0 <= i < t.len() - 1 implies #[trigger] Self::node_step(t[i], t[i + 1], now) by {
            if i < t1.len() - 1 {
                assert(t[i] == t1[i]);
                assert(t[i + 1] == t1[i + 1]);
            } else {
                let j = i - (t1.len() - 1);
                assert(t[i] == t2[j]);
                assert(t[i + 1] == t2[j + 1]);
            }
        }
        assert(Self::steps_ok(t, now));
        assert(t.last() == c);
    }

    proof fn lemma_reached_trans(a: &Self, b: &Self, c: &Self, now: Cycle)
        requires
            a.nodes_reached(b, now),
            b.nodes_reached(c, now),
        ensures
            a.nodes_reached(c, now),
    {
        assert forall|n: int| 0 <= n < a.node_count() implies Self::reaches(a.node_at(n), #[trigger] c.node_at(n), now) by {
            assert(Self::reaches(a.node_at(n), b.node_at(n), now));
            assert(Self::reaches(b.node_at(n), c.node_at(n), now));
            Self::lemma_reaches_trans(a.node_at(n), b.node_at(n), c.node_at(n), now);
        }
    }

    proof fn lemma_reached_refl(a: &Self, now: Cycle)
        ensures
            a.nodes_reached(a, now),
    {
        assert forall|n: int| 0 <= n < a.node_count() implies Self::reaches(a.node_at(n), #[trigger] a.node_at(n), now) by {
            Self::lemma_reaches_refl(a.node_at(n), now);
        }
    }

    /// One step on node `k` of `a`, the others kept, keeps every node of
    /// `b` reached from `start`.
    proof fn lemma_reached_step(start: &Self, a: &Self, b: &Self, k: int, now: Cycle)
        requires
            start.nodes_reached(a, now),
            b.nodes@.len() == a.nodes@.len(),
            0 <= k < a.nodes@.len(),
            forall|j: int| 0 <= j < a.nodes@.len() && j != k ==> b.nodes@[j] == a.nodes@[j],
            Self::node_step(a.nodes@[k].node, b.nodes@[k].node, now),
        ensures
            start.nodes_reached(b, now),
    {
        assert forall|n: int| 0 <= n < start.node_count() implies Self::reaches(start.node_at(n), #[trigger] b.node_at(n), now) by {
            assert(Self::reaches(start.node_at(n), a.node_at(n), now));
            if n == k {
                Self::lemma_reaches_step(start.node_at(n), a.node_at(n), b.node_at(n), now);
            } else {
                assert(b.nodes@[n] == a.nodes@[n]);
            }
        }
    }

    closed spec fn kept_except(a: &Self, b: &Self, e: int, n: int) -> bool {
        &&& forall|k: int| 0 <= k < a.edges@.len() && k != e ==> #[trigger] b.edges@[k] == a.edges@[k]
        &&& forall|k: int| 0 <= k < a.nodes@.len() && k != n ==> #[trigger] b.nodes@[k] == a.nodes@[k]
    }

    /// Entries waiting in link `e`.
    pub closed spec fn edge_backlog(&self, e: int) -> nat {
        self.edges@[e].buffer.items().len()
    }

    /// Cycle before which link `e` delivers nothing.
    pub closed spec fn edge_retry(&self, e: int) -> Cycle {
        self.edges@[e].next_retry_cycle
    }

    /// Link `e` has nothing left to deliver at `now`: it is empty, or it
    /// waits for a later cycle.
    pub open spec fn link_settled(&self, e: int, now: Cycle) -> bool {
        self.edge_backlog(e) == 0 || self.edge_retry(e) >= sat_add(now as int, 1)
    }

    /// Entries waiting in link `e`, oldest first.
    pub closed spec fn edge_items(&self, e: int) -> Seq<ServiceResult<T>> {
        self.edges@[e].buffer.items()
    }

    /// The filter of link `e`, if it has one.
    pub closed spec fn edge_filter(&self, e: int) -> Option<F> {
        self.edges@[e].predicate
    }

    /// From `self` to `post`, link `e` took in, in order, entries `p` that
    /// its source's router (or else its filter) sends over it, and handed
    /// its oldest entries on to its destination: what it holds is the tail
    /// of its old entries followed by `p`, nothing lost or repeated, and
    /// its push and delivery counters grew by those numbers.
    pub open spec fn link_moved(&self, post: &Self, e: int, p: Seq<ServiceResult<T>>) -> bool {
        let all = self.edge_items(e) + p;
        let left = post.edge_items(e);
        &&& forall|j: int|
            0 <= j < p.len() ==> Self::takes(
                self.node_route(self.edge_src(e) as int),
                self.edge_filter(e),
                self.edge_output(e),
                &(#[trigger] p[j]).payload,
            )
        &&& left.len() <= all.len()
        &&& left == all.skip(all.len() - left.len())
        &&& post.edge_stat(e).entries_pushed == sat_add(self.edge_stat(e).entries_pushed as int, p.len() as int)
        &&& post.edge_stat(e).entries_delivered == sat_add(
            self.edge_stat(e).entries_delivered as int,
            all.len() - left.len(),
        )
    }

    proof fn lemma_moved_all(a: &Self, g1: &Self, gf: &Self, b: &Self)
        requires
            g1.edges@ == a.edges@,
            g1.nodes@.len() == a.nodes@.len(),
            forall|m: int| 0 <= m < a.nodes@.len() ==> #[trigger] g1.nodes@[m].route_fn == a.nodes@[m].route_fn,
            gf.edges@.len() == a.edges@.len(),
            b.edges@.len() == a.edges@.len(),
            a.wf(),
            forall|k: int| 0 <= k < a.edges@.len() ==> #[trigger] Self::filled(g1, gf, k),
            forall|k: int| 0 <= k < a.edges@.len() ==> #[trigger] Self::drained(gf, b, k),
        ensures
            forall|e: int| 0 <= e < a.edge_count() ==> #[trigger] a.link_moved_some(b, e),
    {
        assert forall|k: int| 0 <= k < a.edge_count() implies #[trigger] a.link_moved_some(b, k) by {
            let b0 = a.edges@[k].buffer.items();
            let bf = gf.edges@[k].buffer.items();
            let added = bf.skip(b0.len() as int);
            assert(Self::filled(g1, gf, k));
            assert(Self::drained(gf, b, k));
            assert(b0 + added =~= bf);
            assert(a.edges@[k].src < a.nodes@.len());
            assert forall|j: int| 0 <= j < added.len() implies Self::takes(
                a.node_route(a.edge_src(k) as int),
                a.edge_filter(k),
                a.edge_output(k),
                &(#[trigger] added[j]).payload,
            ) by {
                assert(added[j] == bf[j + b0.len()]);
            }
            assert(a.link_moved(b, k, added));
        }
    }

    /// Link `e` moved some entries from `self` to `post` (see `link_moved`).
    /// In a tick at `now`, link `e` counts backpressure only when its
    /// retry cycle has come: then it either hands on everything it holds,
    /// or its head is refused once, counted once, and it waits at least a
    /// cycle.
    pub open spec fn link_answered(&self, post: &Self, e: int, now: Cycle) -> bool {
        let bp0 = self.edge_stat(e).downstream_backpressure;
        let bp1 = post.edge_stat(e).downstream_backpressure;
        if now < self.edge_retry(e) {
            bp1 == bp0
        } else {
            ||| bp1 == bp0 && post.edge_backlog(e) == 0
            ||| bp1 == sat_add(bp0 as int, 1) && post.edge_backlog(e) > 0 && post.edge_retry(e) >= sat_add(
                now as int,
                1,
            )
        }
    }

    pub open spec fn link_moved_some(&self, post: &Self, e: int) -> bool {
        exists|p: Seq<ServiceResult<T>>| #[trigger] self.link_moved(post, e, p)
    }

    /// Link `e` of `b` is that of `a` after a fill from its source.
    closed spec fn filled(a: &Self, b: &Self, e: int) -> bool {
        let b0 = a.edges@[e].buffer.items();
        let b1 = b.edges@[e].buffer.items();
        let edge = a.edges@[e];
        &&& b0.len() <= b1.len()
        &&& b0 == b1.subrange(0, b0.len() as int)
        &&& forall|j: int|
            b0.len() <= j < b1.len() ==> Self::takes(
                a.nodes@[edge.src as int].route_fn,
                edge.predicate,
                edge.output_idx,
                &(#[trigger] b1[j]).payload,
            )
        &&& b.edges@[e].stats.entries_pushed == sat_add(edge.stats.entries_pushed as int, b1.len() - b0.len())
        &&& b.edges@[e].stats.entries_delivered == edge.stats.entries_delivered
        &&& b.edges@[e].predicate == edge.predicate
        &&& b.edges@[e].stats.downstream_backpressure == edge.stats.downstream_backpressure
        &&& b.edges@[e].next_retry_cycle == edge.next_retry_cycle
    }

    /// Link `e` of `b` is that of `a` after a drain into its destination.
    closed spec fn drained(a: &Self, b: &Self, e: int) -> bool {
        let b0 = a.edges@[e].buffer.items();
        let b1 = b.edges@[e].buffer.items();
        &&& b1.len() <= b0.len()
        &&& b1 == b0.subrange(b0.len() - b1.len(), b0.len() as int)
        &&& b.edges@[e].stats.entries_pushed == a.edges@[e].stats.entries_pushed
        &&& b.edges@[e].stats.entries_delivered == sat_add(
            a.edges@[e].stats.entries_delivered as int,
            b0.len() - b1.len(),
        )
    }

    /// A drain of link `e` at `now` from `a` to `b`: skipped before the
    /// link's retry cycle; else it hands on everything it holds, or its head
    /// is refused once, counted as backpressure, and it waits.
    closed spec fn answered(a: &Self, b: &Self, e: int, now: Cycle) -> bool {
        let bp0 = a.edges@[e].stats.downstream_backpressure;
        let bp1 = b.edges@[e].stats.downstream_backpressure;
        if now < a.edges@[e].next_retry_cycle {
            bp1 == bp0
        } else {
            ||| bp1 == bp0 && b.edges@[e].buffer.items().len() == 0
            ||| bp1 == sat_add(bp0 as int, 1) && b.edges@[e].buffer.items().len() > 0
                && b.edges@[e].next_retry_cycle >= sat_add(now as int, 1)
        }
    }

    /// Stats of every link other than `e` are unchanged from `a` to `b`.
    closed spec fn stats_kept_except(a: &Self, b: &Self, e: int) -> bool {
        forall|k: int| 0 <= k < a.edges@.len() && k != e ==> #[trigger] b.edges@[k].stats == a.edges@[k].stats
    }

    /// `post` is what a tick at `now` makes of `self` (see `tick`).
    pub open spec fn ticked_to(&self, post: &Self, now: Cycle) -> bool {
        &&& post.wf()
        &&& self.same_shape(post)
        &&& forall|e: int| 0 <= e < self.edge_count() ==> self.edge_stat(e).grows_to(#[trigger] post.edge_stat(e))
        &&& forall|e: int|
            0 <= e < self.edge_count() ==> {
                ||| #[trigger] post.edge_stat(e).last_delivery_cycle == self.edge_stat(e).last_delivery_cycle
                ||| post.edge_stat(e).last_delivery_cycle == Some(now)
            }
        &&& forall|e: int| 0 <= e < self.edge_count() ==> #[trigger] post.link_settled(e, now)
        &&& forall|e: int| 0 <= e < self.edge_count() ==> #[trigger] self.link_moved_some(post, e)
        &&& forall|e: int| 0 <= e < self.edge_count() ==> #[trigger] self.link_answered(post, e, now)
        &&& self.nodes_stepped(post, now)
    }

    /// Advance every node, then move ready completions into outgoing
    /// links (each link in turn, while its source has a completion the
    /// link takes and room for it), then let each link whose retry cycle
    /// has come deliver into its destination until the destination
    /// refuses; a refused entry goes back to the head of its link and the
    /// link waits until the suggested retry cycle.
    pub fn tick(&mut self, now: Cycle)
        requires
            old(self).wf(),
        ensures
            final(self).wf(),
            old(self).same_shape(final(self)),
            forall|e: int|
                0 <= e < old(self).edge_count() ==> old(self).edge_stat(e).grows_to(
                    #[trigger] final(self).edge_stat(e),
                ),
            forall|e: int|
                0 <= e < old(self).edge_count() ==> {
                    ||| #[trigger] final(self).edge_stat(e).last_delivery_cycle == old(
                        self,
                    ).edge_stat(e).last_delivery_cycle
                    ||| final(self).edge_stat(e).last_delivery_cycle == Some(now)
                },
            forall|e: int| 0 <= e < old(self).edge_count() ==> #[trigger] final(self).link_settled(e, now),
            forall|e: int| 0 <= e < old(self).edge_count() ==> #[trigger] old(self).link_moved_some(final(self), e),
            forall|e: int| 0 <= e < old(self).edge_count() ==> #[trigger] old(self).link_answered(final(self), e, now),
            old(self).nodes_stepped(final(self), now),
            old(self).ticked_to(final(self), now),
    {
        let n = self.nodes.len();
        let mut i: usize = 0;
        proof {
            assert(old(self).shape_eq(self));
        }
        while i < n
            invariant
                self.wf(),
                n == self.nodes@.len(),
                old(self).shape_eq(self),
                self.edges@ == old(self).edges@,
                forall|m: int| 0 <= m < n ==> #[trigger] self.nodes@[m].route_fn == old(self).nodes@[m].route_fn,
                i <= n,
                forall|m: int| 0 <= m < i ==> old(self).node_at(m).ticked(&#[trigger] self.node_at(m), now),
                forall|m: int| i <= m < n ==> #[trigger] self.node_at(m) == old(self).node_at(m),
            decreases n - i,
        {
            let ghost g = *self;
            self.nodes[i].node.tick(now);
            proof {
                assert forall|m: int| 0 <= m < i + 1 implies old(self).node_at(m).ticked(&#[trigger] self.node_at(m), now) by {
                    if m < i {
                        assert(self.nodes@[m] == g.nodes@[m]);
                    } else {
                        assert(g.node_at(m) == old(self).node_at(m));
                    }
                }
                assert forall|m: int| i + 1 <= m < n implies #[trigger] self.node_at(m) == old(self).node_at(m) by {
                    assert(self.nodes@[m] == g.nodes@[m]);
                    assert(g.node_at(m) == old(self).node_at(m));
                }
            }
            proof {
                assert forall|m: int| 0 <= m < n implies #[trigger] self.nodes@[m].route_fn == old(self).nodes@[m].route_fn by {
                    assert(self.nodes@[m].route_fn == g.nodes@[m].route_fn);
                }
            }
            proof {
                Self::lemma_node_step(&g, self, i as int);
                Self::lemma_shape_trans(old(self), &g, self);
            }
            i = i + 1;
        }
        let ne = self.edges.len();
        let ghost g1 = *self;
        proof {
            Self::lemma_reached_refl(&g1, now);
        }
        let mut e: usize = 0;
        while e < ne
            invariant
                g1.nodes_reached(self, now),
                forall|m: int| 0 <= m < n ==> old(self).node_at(m).ticked(&#[trigger] g1.node_at(m), now),
                self.wf(),
                ne == self.edges@.len(),
                old(self).shape_eq(self),
                g1.edges@ == old(self).edges@,
                g1.nodes@.len() == n,
                forall|m: int| 0 <= m < n ==> #[trigger] g1.nodes@[m].route_fn == old(self).nodes@[m].route_fn,
                n == self.nodes@.len(),
                e <= ne,
                forall|m: int| 0 <= m < n ==> #[trigger] self.nodes@[m].route_fn == old(self).nodes@[m].route_fn,
                forall|k: int| 0 <= k < e ==> #[trigger] Self::filled(&g1, self, k),
                forall|k: int| e <= k < ne ==> #[trigger] self.edges@[k] == g1.edges@[k],
                forall|k: int|
                    0 <= k < ne ==> old(self).edges@[k].stats.grows_to(
                        #[trigger] self.edges@[k].stats,
                    ),
                forall|k: int|
                    0 <= k < ne ==> #[trigger] self.edges@[k].stats.last_delivery_cycle == old(
                        self,
                    ).edges@[k].stats.last_delivery_cycle,
            decreases ne - e,
        {
            let ghost g = *self;
            self.fill_link(e, now);
            proof {
                Self::lemma_reached_trans(&g1, &g, self, now);
                Self::lemma_shape_trans(old(self), &g, self);
                assert forall|m: int| 0 <= m < n implies #[trigger] self.nodes@[m].route_fn == old(self).nodes@[m].route_fn by {
                    if m != g.edges@[e as int].src {
                        assert(self.nodes@[m] == g.nodes@[m]);
                    }
                }
                assert(g.edges@[e as int] == g1.edges@[e as int]);
                assert(Self::filled(&g1, self, e as int));
                assert forall|k: int| 0 <= k < e + 1 implies #[trigger] Self::filled(&g1, self, k) by {
                    if k < e {
                        assert(self.edges@[k] == g.edges@[k]);
                        assert(Self::filled(&g1, &g, k));
                    }
                }
                assert forall|k: int| e + 1 <= k < ne implies #[trigger] self.edges@[k] == g1.edges@[k] by {
                    assert(self.edges@[k] == g.edges@[k]);
                }
                assert forall|k: int| 0 <= k < ne implies old(self).edges@[k].stats.grows_to(
                    #[trigger] self.edges@[k].stats,
                ) by {
                    if k != e {
                        assert(self.edges@[k].stats == g.edges@[k].stats);
                    }
                    assert(old(self).edges@[k].stats.grows_to(g.edges@[k].stats));
                }
                assert forall|k: int| 0 <= k < ne implies #[trigger] self.edges@[k].stats.last_delivery_cycle == old(self).edges@[k].stats.last_delivery_cycle by {
                    if k != e {
                        assert(self.edges@[k].stats == g.edges@[k].stats);
                    }
                    assert(g.edges@[k].stats.last_delivery_cycle == old(self).edges@[k].stats.last_delivery_cycle);
                }
            }
            e = e + 1;
        }
        let ghost gf = *self;
        let mut e: usize = 0;
        while e < ne
            invariant
                g1.nodes_reached(self, now),
                forall|m: int| 0 <= m < n ==> old(self).node_at(m).ticked(&#[trigger] g1.node_at(m), now),
                self.wf(),
                ne == self.edges@.len(),
                old(self).shape_eq(self),
                g1.edges@ == old(self).edges@,
                g1.nodes@.len() == n,
                forall|m: int| 0 <= m < n ==> #[trigger] g1.nodes@[m].route_fn == old(self).nodes@[m].route_fn,
                n == self.nodes@.len(),
                forall|k: int| 0 <= k < ne ==> #[trigger] Self::filled(&g1, &gf, k),
                gf.edges@.len() == ne,
                gf.nodes@.len() == n,
                forall|k: int| 0 <= k < e ==> #[trigger] Self::drained(&gf, self, k),
                forall|k: int| 0 <= k < e ==> #[trigger] Self::answered(&gf, self, k, now),
                forall|k: int| e <= k < ne ==> #[trigger] self.edges@[k] == gf.edges@[k],
                forall|m: int| 0 <= m < n ==> #[trigger] self.nodes@[m].route_fn == old(self).nodes@[m].route_fn,
                forall|k: int|
                    0 <= k < ne ==> old(self).edges@[k].stats.grows_to(
                        #[trigger] self.edges@[k].stats,
                    ),
                forall|k: int|
                    0 <= k < ne ==> {
                        ||| #[trigger] self.edges@[k].stats.last_delivery_cycle == old(
                            self,
                        ).edges@[k].stats.last_delivery_cycle
                        ||| self.edges@[k].stats.last_delivery_cycle == Some(now)
                    },
                e <= ne,
                forall|k: int| 0 <= k < e ==> #[trigger] self.link_settled(k, now),
            decreases ne - e,
        {
            let ghost g = *self;
            self.drain_link(e, now);
            proof {
                Self::lemma_reached_trans(&g1, &g, self, now);
                Self::lemma_shape_trans(old(self), &g, self);
                assert(g.edges@[e as int] == gf.edges@[e as int]);
                assert(Self::drained(&gf, self, e as int));
                assert forall|k: int| 0 <= k < e + 1 implies #[trigger] Self::drained(&gf, self, k) by {
                    if k < e {
                        assert(self.edges@[k] == g.edges@[k]);
                        assert(Self::drained(&gf, &g, k));
                    }
                }
                assert forall|k: int| 0 <= k < e + 1 implies #[trigger] Self::answered(&gf, self, k, now) by {
                    if k < e {
                        assert(self.edges@[k] == g.edges@[k]);
                        assert(Self::answered(&gf, &g, k, now));
                    }
                }
                assert forall|k: int| e + 1 <= k < ne implies #[trigger] self.edges@[k] == gf.edges@[k] by {
                    assert(self.edges@[k] == g.edges@[k]);
                }
                assert forall|k: int| 0 <= k < e + 1 implies #[trigger] self.link_settled(k, now) by {
                    if k != e {
                        assert(self.edges@[k] == g.edges@[k]);
                        assert(g.link_settled(k, now));
                    }
                }
                assert forall|k: int| 0 <= k < ne implies old(self).edges@[k].stats.grows_to(
                    #[trigger] self.edges@[k].stats,
                ) by {
                    if k != e {
                        assert(self.edges@[k].stats == g.edges@[k].stats);
                    }
                    assert(old(self).edges@[k].stats.grows_to(g.edges@[k].stats));
                }
                assert forall|k: int| 0 <= k < ne implies {
                    ||| #[trigger] self.edges@[k].stats.last_delivery_cycle == old(
                        self,
                    ).edges@[k].stats.last_delivery_cycle
                    ||| self.edges@[k].stats.last_delivery_cycle == Some(now)
                } by {
                    if k != e {
                        assert(self.edges@[k].stats == g.edges@[k].stats);
                    }
                    assert(g.edges@[k].stats.last_delivery_cycle == old(self).edges@[k].stats.last_delivery_cycle
                        || g.edges@[k].stats.last_delivery_cycle == Some(now));
                }
            }
            e = e + 1;
        }
        proof {
            assert(old(self).nodes_reached_from(&g1, self, now));
            Self::lemma_shape_public(old(self), self);
            Self::lemma_moved_all(old(self), &g1, &gf, self);
            assert forall|k: int| 0 <= k < old(self).edge_count() implies #[trigger] old(self).link_answered(self, k, now) by {
                assert(Self::filled(&g1, &gf, k));
                assert(Self::answered(&gf, self, k, now));
                assert(g1.edges@[k] == old(self).edges@[k]);
            }
            assert forall|k: int| 0 <= k < old(self).edge_count() implies old(self).edge_stat(k).grows_to(
                #[trigger] self.edge_stat(k),
            ) by {
                assert(old(self).edges@[k].stats.grows_to(self.edges@[k].stats));
            }
            assert forall|k: int| 0 <= k < old(self).edge_count() implies {
                ||| #[trigger] self.edge_stat(k).last_delivery_cycle == old(self).edge_stat(
                    k,
                ).last_delivery_cycle
                ||| self.edge_stat(k).last_delivery_cycle == Some(now)
            } by {
                assert(self.edges@[k].stats.last_delivery_cycle == old(self).edges@[k].stats.last_delivery_cycle
                    || self.edges@[k].stats.last_delivery_cycle == Some(now));
            }
        }
    }

    /// Move completions of the source of link `e` into the link.
    fn fill_link(&mut self, e: usize, now: Cycle)
        requires
            old(self).wf(),
            e < old(self).edges@.len(),
        ensures
            old(self).nodes_reached(final(self), now),
            final(self).wf(),
            old(self).shape_eq(final(self)),
            Self::stats_kept_except(old(self), final(self), e as int),
            old(self).edges@[e as int].stats.grows_to(final(self).edges@[e as int].stats),
            final(self).edges@[e as int].stats.last_delivery_cycle == old(self).edges@[e as int].stats.last_delivery_cycle,
            Self::kept_except(old(self), final(self), e as int, old(self).edges@[e as int].src as int),
            final(self).edges@[e as int].next_retry_cycle == old(self).edges@[e as int].next_retry_cycle,
            final(self).edges@[e as int].stats.downstream_backpressure == old(self).edges@[e as int].stats.downstream_backpressure,
            final(self).edges@[e as int].predicate == old(self).edges@[e as int].predicate,
            ({
                let b0 = old(self).edges@[e as int].buffer.items();
                let b1 = final(self).edges@[e as int].buffer.items();
                b0.len() <= b1.len() && b0 == b1.subrange(0, b0.len() as int)
            }),
            final(self).nodes@[old(self).edges@[e as int].src as int].route_fn == old(self).nodes@[old(self).edges@[e as int].src as int].route_fn,
            ({
                let b0 = old(self).edges@[e as int].buffer.items();
                let b1 = final(self).edges@[e as int].buffer.items();
                let edge = old(self).edges@[e as int];
                &&& forall|j: int|
                    b0.len() <= j < b1.len() ==> Self::takes(
                        old(self).nodes@[edge.src as int].route_fn,
                        edge.predicate,
                        edge.output_idx,
                        &(#[trigger] b1[j]).payload,
                    )
                &&& final(self).edges@[e as int].stats.entries_pushed == sat_add(
                    edge.stats.entries_pushed as int,
                    b1.len() - b0.len(),
                )
                &&& final(self).edges@[e as int].stats.entries_delivered == edge.stats.entries_delivered
            }),
            ({
                let src = old(self).edges@[e as int].src as int;
                let edge = final(self).edges@[e as int];
                match final(self).nodes@[src].node.next_ready(now) {
                    Some(x) => !Self::takes(final(self).nodes@[src].route_fn, edge.predicate, edge.output_idx, &x.payload)
                        || !edge.buffer.accepts(x.ticket.size()),
                    None => true,
                }
            }),
    {
        let src = self.edges[e].src;
        proof {
            assert(old(self).shape_eq(self));
            Self::lemma_reached_refl(old(self), now);
        }
        let ghost b0 = self.edges@[e as int].buffer.items();
        loop
            invariant
                old(self).nodes_reached(self, now),
                self.wf(),
                e < self.edges@.len(),
                src == self.edges@[e as int].src,
                src == old(self).edges@[e as int].src,
                b0 == old(self).edges@[e as int].buffer.items(),
                old(self).shape_eq(self),
                Self::stats_kept_except(old(self), self, e as int),
                Self::kept_except(old(self), self, e as int, src as int),
                old(self).edges@[e as int].stats.grows_to(self.edges@[e as int].stats),
                self.edges@[e as int].stats.last_delivery_cycle == old(self).edges@[e as int].stats.last_delivery_cycle,
                self.edges@[e as int].next_retry_cycle == old(self).edges@[e as int].next_retry_cycle,
                self.edges@[e as int].stats.downstream_backpressure == old(self).edges@[e as int].stats.downstream_backpressure,
                self.edges@[e as int].predicate == old(self).edges@[e as int].predicate,
                b0.len() <= self.edges@[e as int].buffer.items().len(),
                b0 == self.edges@[e as int].buffer.items().subrange(0, b0.len() as int),
                self.nodes@[src as int].route_fn == old(self).nodes@[src as int].route_fn,
                self.edges@[e as int].output_idx == old(self).edges@[e as int].output_idx,
                forall|j: int|
                    b0.len() <= j < self.edges@[e as int].buffer.items().len() ==> Self::takes(
                        old(self).nodes@[src as int].route_fn,
                        old(self).edges@[e as int].predicate,
                        old(self).edges@[e as int].output_idx,
                        &(#[trigger] self.edges@[e as int].buffer.items()[j]).payload,
                    ),
                self.edges@[e as int].stats.entries_pushed == sat_add(
                    old(self).edges@[e as int].stats.entries_pushed as int,
                    self.edges@[e as int].buffer.items().len() - b0.len(),
                ),
                self.edges@[e as int].stats.entries_delivered == old(self).edges@[e as int].stats.entries_delivered,
            ensures
                ({
                    let edge = self.edges@[e as int];
                    match self.nodes@[src as int].node.next_ready(now) {
                        Some(x) => !Self::takes(self.nodes@[src as int].route_fn, edge.predicate, edge.output_idx, &x.payload)
                            || !edge.buffer.accepts(x.ticket.size()),
                        None => true,
                    }
                }),
            decreases self.edges@[e as int].buffer.capacity_spec() - self.edges@[e as int].buffer.items().len(),
        {
            let ghost g = *self;
            let ghost peeked = self.nodes@[src as int].node.next_ready(now);
            let info = Self::routing_decision(&mut self.nodes[src], &self.edges[e], now);
            let ghost g1 = *self;
            proof {
                Self::lemma_reached_step(old(self), &g, self, src as int, now);
                Self::lemma_node_step(&g, self, src as int);
                Self::lemma_shape_trans(old(self), &g, self);
            }
            let (size, pass) = match info {
                Some(x) => x,
                None => {
                    break;
                },
            };
            if !pass {
                break;
            }
            if !self.edges[e].buffer.can_accept(size) {
                break;
            }
            let taken = self.nodes[src].node.take_ready(now);
            let ghost g2 = *self;
            proof {
                Self::lemma_reached_step(old(self), &g1, self, src as int, now);
                Self::lemma_node_step(&g1, self, src as int);
                Self::lemma_shape_trans(old(self), &g1, self);
            }
            let result = match taken {
                Some(r) => r,
                None => {
                    break;
                },
            };
            assert(result.ticket.size() == size);
            let pushed = self.edges[e].buffer.try_push(result);
            self.edges[e].record_push();
            proof {
                Self::lemma_edge_step(&g2, self, e as int);
                Self::lemma_reached_same_nodes(old(self), &g2, self, now);
                Self::lemma_shape_trans(old(self), &g2, self);
                assert(b0 =~= self.edges@[e as int].buffer.items().subrange(0, b0.len() as int));
            }
        }
    }

    /// Deliver entries of link `e` into its destination.
    fn drain_link(&mut self, e: usize, now: Cycle)
        requires
            old(self).wf(),
            e < old(self).edges@.len(),
        ensures
            old(self).nodes_reached(final(self), now),
            final(self).wf(),
            old(self).shape_eq(final(self)),
            Self::stats_kept_except(old(self), final(self), e as int),
            old(self).edges@[e as int].stats.grows_to(final(self).edges@[e as int].stats),
            final(self).edges@[e as int].stats.last_delivery_cycle == old(self).edges@[e as int].stats.last_delivery_cycle
                || final(self).edges@[e as int].stats.last_delivery_cycle == Some(now),
            Self::kept_except(old(self), final(self), e as int, old(self).edges@[e as int].dst as int),
            now < old(self).edges@[e as int].next_retry_cycle ==> *final(self) == *old(self),
            ({
                let b0 = old(self).edges@[e as int].buffer.items();
                let b1 = final(self).edges@[e as int].buffer.items();
                b1.len() <= b0.len() && b1 == b0.subrange(b0.len() - b1.len(), b0.len() as int)
            }),
            final(self).link_settled(e as int, now),
            Self::answered(old(self), final(self), e as int, now),
            forall|n: int| 0 <= n < old(self).nodes@.len() ==> #[trigger] final(self).nodes@[n].route_fn == old(self).nodes@[n].route_fn,
            final(self).edges@[e as int].predicate == old(self).edges@[e as int].predicate,
            final(self).edges@[e as int].stats.entries_pushed == old(self).edges@[e as int].stats.entries_pushed,
            final(self).edges@[e as int].stats.entries_delivered == sat_add(
                old(self).edges@[e as int].stats.entries_delivered as int,
                old(self).edges@[e as int].buffer.items().len() - final(self).edges@[e as int].buffer.items().len(),
            ),
    {
        proof {
            assert(old(self).shape_eq(self));
            Self::lemma_reached_refl(old(self), now);
        }
        if now < self.edges[e].next_retry_cycle {
            return;
        }
        let dst = self.edges[e].dst;
        let ghost b0 = self.edges@[e as int].buffer.items();
        loop
            invariant_except_break
                self.edges@[e as int].stats.downstream_backpressure == old(self).edges@[e as int].stats.downstream_backpressure,
            invariant
                old(self).nodes_reached(self, now),
                self.wf(),
                e < self.edges@.len(),
                dst == self.edges@[e as int].dst,
                dst == old(self).edges@[e as int].dst,
                b0 == old(self).edges@[e as int].buffer.items(),
                old(self).shape_eq(self),
                Self::stats_kept_except(old(self), self, e as int),
                Self::kept_except(old(self), self, e as int, dst as int),
                old(self).edges@[e as int].stats.grows_to(self.edges@[e as int].stats),
                self.edges@[e as int].stats.last_delivery_cycle == old(self).edges@[e as int].stats.last_delivery_cycle
                    || self.edges@[e as int].stats.last_delivery_cycle == Some(now),
                self.edges@[e as int].buffer.items().len() <= b0.len(),
                self.edges@[e as int].buffer.items() == b0.subrange(
                    b0.len() - self.edges@[e as int].buffer.items().len(),
                    b0.len() as int,
                ),
                forall|n: int| 0 <= n < old(self).nodes@.len() ==> #[trigger] self.nodes@[n].route_fn == old(self).nodes@[n].route_fn,
                self.edges@[e as int].predicate == old(self).edges@[e as int].predicate,
                self.edges@[e as int].stats.entries_pushed == old(self).edges@[e as int].stats.entries_pushed,
                self.edges@[e as int].stats.entries_delivered == sat_add(
                    old(self).edges@[e as int].stats.entries_delivered as int,
                    b0.len() - self.edges@[e as int].buffer.items().len(),
                ),
                now >= old(self).edges@[e as int].next_retry_cycle,
            ensures
                self.link_settled(e as int, now),
                Self::answered(old(self), self, e as int, now),
            decreases self.edges@[e as int].buffer.items().len(),
        {
            let ghost g = *self;
            let popped = self.edges[e].buffer.pop_front();
            let entry = match popped {
                Some(entry) => entry,
                None => {
                    self.edges[e].set_retry(now);
                    proof {
                        Self::lemma_edge_step(&g, self, e as int);
                        Self::lemma_reached_same_nodes(old(self), &g, self, now);
                        Self::lemma_shape_trans(old(self), &g, self);
                        assert(self.edge_backlog(e as int) == 0);
                    }
                    break;
                },
            };
            let ghost g1 = *self;
            proof {
                Self::lemma_edge_step(&g, self, e as int);
                Self::lemma_reached_same_nodes(old(self), &g, self, now);
                Self::lemma_shape_trans(old(self), &g, self);
                assert(self.edges@[e as int].buffer.items() =~= b0.subrange(
                    b0.len() - self.edges@[e as int].buffer.items().len(),
                    b0.len() as int,
                ));
            }
            let LinkEntry { result, size_bytes } = entry;
            let ServiceResult { payload, ticket } = result;
            let request = ServiceRequest::new(payload, size_bytes);
            let put = self.nodes[dst].node.try_put(now, request);
            let ghost g2 = *self;
            proof {
                assert(g1.nodes@[dst as int].node.put_outcome(&self.nodes@[dst as int].node, now, request, put));
                Self::lemma_reached_step(old(self), &g1, self, dst as int, now);
                Self::lemma_node_step(&g1, self, dst as int);
                Self::lemma_shape_trans(old(self), &g1, self);
            }
            match put {
                Ok(_) => {
                    self.edges[e].record_delivery(now);
                    proof {
                        Self::lemma_edge_step(&g2, self, e as int);
                        Self::lemma_reached_same_nodes(old(self), &g2, self, now);
                        Self::lemma_shape_trans(old(self), &g2, self);
                    }
                },
                Err(bp) => {
                    let retry_at = match &bp {
                        Backpressure::Busy { available_at, .. } => normalize_retry(now, *available_at),
                        Backpressure::QueueFull { .. } => normalize_retry(now, now),
                    };
                    let request = bp.into_request();
                    let ServiceRequest { payload, size_bytes } = request;
                    let restored = LinkEntry { result: ServiceResult { payload, ticket }, size_bytes };
                    self.edges[e].buffer.push_front(restored);
                    self.edges[e].record_backpressure(retry_at);
                    proof {
                        Self::lemma_edge_step(&g2, self, e as int);
                        Self::lemma_reached_same_nodes(old(self), &g2, self, now);
                        Self::lemma_shape_trans(old(self), &g2, self);
                        assert(self.edges@[e as int].buffer.items() =~= g.edges@[e as int].buffer.items());
                        assert(self.edge_retry(e as int) >= sat_add(now as int, 1));
                    }
                    break;
                },
            }
        }
    }
}

} // verus!
