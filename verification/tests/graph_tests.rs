use cyclotron::timeflow::graph::{
    AcceptAll, EdgeFilter, FlowGraph, Link, LinkBackpressure, RouteFn, TimedNode,
};
use cyclotron::timeflow::server_node::ServerNode;
use cyclotron::timeq::{
    Backpressure, Cycle, ServerConfig, ServiceRequest, ServiceResult, Ticket, TimedServer,
};

#[derive(Clone, Debug)]
struct BankPayload {
    bank: usize,
    value: &'static str,
}

struct BankIs(usize);

impl EdgeFilter<BankPayload> for BankIs {
    fn admits(&self, payload: &BankPayload) -> bool {
        payload.bank == self.0
    }

    fn accepts(&self, payload: &BankPayload) -> bool {
        payload.bank == self.0
    }
}

#[derive(Clone, Debug)]
struct RoutedPayload {
    route: usize,
    value: &'static str,
}

struct ByRoute;

impl RouteFn<RoutedPayload> for ByRoute {
    fn target(&self, payload: &RoutedPayload) -> usize {
        payload.route
    }

    fn route(&self, payload: &RoutedPayload) -> usize {
        payload.route
    }
}

struct RejectAll;

impl EdgeFilter<u32> for RejectAll {
    fn admits(&self, _payload: &u32) -> bool {
        false
    }

    fn accepts(&self, _payload: &u32) -> bool {
        false
    }
}

#[derive(Clone, Debug)]
struct BranchPayload {
    branch: usize,
}

struct BranchIs(usize);

impl EdgeFilter<BranchPayload> for BranchIs {
    fn admits(&self, payload: &BranchPayload) -> bool {
        payload.branch == self.0
    }

    fn accepts(&self, payload: &BranchPayload) -> bool {
        payload.branch == self.0
    }
}

/// A node that is either a timed server or always busy.
enum TestNode {
    Server(ServerNode<&'static str>),
    Busy,
}

impl TimedNode<&'static str> for TestNode {
    fn inv(&self) -> bool {
        true
    }

    // The specification items of the trait are read by the verifier only;
    // this node never exposes a completion.
    fn next_ready(&self, _now: Cycle) -> Option<ServiceResult<&'static str>> {
        None
    }

    fn put_outcome(
        &self,
        _post: &Self,
        _now: Cycle,
        _request: ServiceRequest<&'static str>,
        _r: Result<Ticket, Backpressure<&'static str>>,
    ) -> bool {
        true
    }

    fn node_name(&self) -> String {
        String::new()
    }

    fn ticked(&self, _post: &Self, _now: Cycle) -> bool {
        true
    }

    fn took(&self, _post: &Self, _now: Cycle) -> bool {
        true
    }

    fn peeked(&self, _post: &Self, _now: Cycle) -> bool {
        true
    }

    fn name(&self) -> &str {
        match self {
            TestNode::Server(n) => n.name(),
            TestNode::Busy => "busy",
        }
    }

    fn try_put(
        &mut self,
        now: Cycle,
        request: ServiceRequest<&'static str>,
    ) -> Result<Ticket, Backpressure<&'static str>> {
        match self {
            TestNode::Server(n) => n.try_put(now, request),
            TestNode::Busy => Err(Backpressure::Busy { request, available_at: now + 5 }),
        }
    }

    fn tick(&mut self, now: Cycle) {
        if let TestNode::Server(n) = self {
            n.tick(now);
        }
    }

    fn peek_ready(&mut self, now: Cycle) -> Option<&ServiceResult<&'static str>> {
        match self {
            TestNode::Server(n) => n.peek_ready(now),
            TestNode::Busy => None,
        }
    }

    fn take_ready(&mut self, now: Cycle) -> Option<ServiceResult<&'static str>> {
        match self {
            TestNode::Server(n) => n.take_ready(now),
            TestNode::Busy => None,
        }
    }

    fn outstanding(&self) -> usize {
        match self {
            TestNode::Server(n) => n.outstanding(),
            TestNode::Busy => 0,
        }
    }
}

fn cfg(base_latency: u64, bytes_per_cycle: u32, queue_capacity: usize) -> ServerConfig {
    ServerConfig { base_latency, bytes_per_cycle, queue_capacity, ..ServerConfig::default() }
}

fn moves_payloads_between_nodes() {
    let mut graph: FlowGraph<&'static str> = FlowGraph::new();
    let node0 = ServerNode::new("n0", TimedServer::new(cfg(1, 4, 4)));
    let node1 = ServerNode::new("n1", TimedServer::new(cfg(1, 4, 4)));
    let n0 = graph.add_node(node0);
    let n1 = graph.add_node(node1);
    graph.connect(n0, n1, "n0->n1", Link::new(4));

    graph.try_put(n0, 0, ServiceRequest::new("payload", 8)).expect("enqueue should succeed");

    for cycle in 0..10 {
        graph.tick(cycle);
    }

    let node = graph.node_mut(n1);
    let result = node.take_ready(10).expect("result should exist");
    assert_eq!("payload", result.payload);
}

fn filtered_links() {
    let mut graph: FlowGraph<BankPayload, ServerNode<BankPayload>, BankIs> = FlowGraph::new();
    let src = graph.add_node(ServerNode::new("src", TimedServer::new(cfg(0, 4, 8))));
    let sink0 = graph.add_node(ServerNode::new("sink0", TimedServer::new(ServerConfig::default())));
    let sink1 = graph.add_node(ServerNode::new("sink1", TimedServer::new(ServerConfig::default())));

    graph.connect_filtered(src, sink0, "src->0", Link::new(4), BankIs(0));
    graph.connect_filtered(src, sink1, "src->1", Link::new(4), BankIs(1));

    graph.try_put(src, 0, ServiceRequest::new(BankPayload { bank: 0, value: "A" }, 4)).unwrap();
    graph.try_put(src, 1, ServiceRequest::new(BankPayload { bank: 1, value: "B" }, 4)).unwrap();

    for cycle in 0..10 {
        graph.tick(cycle);
    }

    let result = graph.node_mut(sink0).take_ready(10).expect("sink0 result");
    assert_eq!("A", result.payload.value);
    let result = graph.node_mut(sink1).take_ready(10).expect("sink1 result");
    assert_eq!("B", result.payload.value);
}

fn route_fn_selects_output() {
    let mut graph: FlowGraph<RoutedPayload, ServerNode<RoutedPayload>, AcceptAll, ByRoute> =
        FlowGraph::new();
    let src = graph.add_node(ServerNode::new("src", TimedServer::new(cfg(0, 4, 8))));
    let sink0 = graph.add_node(ServerNode::new("sink0", TimedServer::new(ServerConfig::default())));
    let sink1 = graph.add_node(ServerNode::new("sink1", TimedServer::new(ServerConfig::default())));

    graph.connect(src, sink0, "src->0", Link::new(4));
    graph.connect(src, sink1, "src->1", Link::new(4));
    graph.set_route_fn(src, ByRoute);

    graph.try_put(src, 0, ServiceRequest::new(RoutedPayload { route: 0, value: "A" }, 4)).unwrap();
    graph.try_put(src, 1, ServiceRequest::new(RoutedPayload { route: 1, value: "B" }, 4)).unwrap();

    for cycle in 0..10 {
        graph.tick(cycle);
    }

    let result = graph.node_mut(sink0).take_ready(10).expect("sink0 result");
    assert_eq!("A", result.payload.value);
    let result = graph.node_mut(sink1).take_ready(10).expect("sink1 result");
    assert_eq!("B", result.payload.value);
}

fn single_node_processes() {
    let mut graph: FlowGraph<&'static str> = FlowGraph::new();
    let node = graph.add_node(ServerNode::new("node", TimedServer::new(cfg(1, 4, 4))));

    graph.try_put(node, 0, ServiceRequest::new("payload", 4)).expect("enqueue should succeed");
    for cycle in 0..3 {
        graph.tick(cycle);
    }
    let result = graph.node_mut(node).take_ready(2).expect("completion exists");
    assert_eq!("payload", result.payload);
}

fn two_node_chain() {
    let mut graph: FlowGraph<&'static str> = FlowGraph::new();
    let a = graph.add_node(ServerNode::new("a", TimedServer::new(cfg(2, 4, 4))));
    let b = graph.add_node(ServerNode::new("b", TimedServer::new(cfg(3, 4, 4))));
    graph.connect(a, b, "a->b", Link::new(4));
    graph.try_put(a, 0, ServiceRequest::new("payload", 4)).expect("enqueue should succeed");

    for cycle in 0..10 {
        graph.tick(cycle);
    }
    let result = graph.node_mut(b).take_ready(10).expect("completion exists");
    assert_eq!("payload", result.payload);
}

fn empty_graph_tick() {
    let mut graph: FlowGraph<u32> = FlowGraph::new();
    graph.tick(0);
    graph.tick(1);
}

fn leaf_accumulates() {
    let mut graph: FlowGraph<&'static str> = FlowGraph::new();
    let node = graph.add_node(ServerNode::new("leaf", TimedServer::new(cfg(0, 4, 2))));
    graph.try_put(node, 0, ServiceRequest::new("payload", 4)).expect("enqueue should succeed");
    graph.tick(1);
    assert!(graph.node_mut(node).peek_ready(1).is_some());
}

fn false_predicate_blocks() {
    let mut graph: FlowGraph<u32, ServerNode<u32>, RejectAll> = FlowGraph::new();
    let src = graph.add_node(ServerNode::new(
        "src",
        TimedServer::new(ServerConfig { queue_capacity: 32, ..ServerConfig::default() }),
    ));
    let dst = graph.add_node(ServerNode::new("dst", TimedServer::new(ServerConfig::default())));
    graph.connect_filtered(src, dst, "src->dst", Link::new(2), RejectAll);
    graph.try_put(src, 0, ServiceRequest::new(7u32, 4)).unwrap();
    for cycle in 0..5 {
        graph.tick(cycle);
    }
    assert!(graph.node_mut(dst).peek_ready(10).is_none());
}

fn three_node_chain() {
    let mut graph: FlowGraph<&'static str> = FlowGraph::new();
    let a = graph.add_node(ServerNode::new("a", TimedServer::new(cfg(1, 4, 4))));
    let b = graph.add_node(ServerNode::new("b", TimedServer::new(cfg(2, 4, 4))));
    let c = graph.add_node(ServerNode::new("c", TimedServer::new(cfg(3, 4, 4))));
    graph.connect(a, b, "a->b", Link::new(4));
    graph.connect(b, c, "b->c", Link::new(4));

    graph.try_put(a, 0, ServiceRequest::new("payload", 4)).expect("enqueue should succeed");
    for cycle in 0..12 {
        graph.tick(cycle);
    }
    let result = graph.node_mut(c).take_ready(12).expect("completion exists");
    assert_eq!("payload", result.payload);
}

fn multiple_inputs() {
    let mut graph: FlowGraph<&'static str> = FlowGraph::new();
    let src0 = graph.add_node(ServerNode::new("src0", TimedServer::new(ServerConfig::default())));
    let src1 = graph.add_node(ServerNode::new("src1", TimedServer::new(ServerConfig::default())));
    let sink = graph.add_node(ServerNode::new(
        "sink",
        TimedServer::new(ServerConfig { queue_capacity: 2, ..ServerConfig::default() }),
    ));
    graph.connect(src0, sink, "src0->sink", Link::new(4));
    graph.connect(src1, sink, "src1->sink", Link::new(4));

    graph.try_put(src0, 0, ServiceRequest::new("a", 1)).unwrap();
    graph.try_put(src1, 0, ServiceRequest::new("b", 1)).unwrap();
    for cycle in 0..5 {
        graph.tick(cycle);
    }
    let n = graph.node_mut(sink);
    let mut results = Vec::new();
    while let Some(res) = n.take_ready(5) {
        results.push(res.payload);
    }
    results.sort();
    assert_eq!(results, vec!["a", "b"]);
}

fn deep_pipeline() {
    let mut graph: FlowGraph<u32> = FlowGraph::new();
    let mut nodes = Vec::new();
    for i in 0..100 {
        let node = graph.add_node(ServerNode::new(format!("n{i}"), TimedServer::new(cfg(0, 1, 2))));
        nodes.push(node);
    }
    for i in 0..99 {
        graph.connect(nodes[i], nodes[i + 1], format!("n{i}->n{}", i + 1), Link::new(2));
    }

    graph.try_put(nodes[0], 0, ServiceRequest::new(42u32, 1)).unwrap();
    for cycle in 0..200 {
        graph.tick(cycle);
    }
    let result = graph.node_mut(nodes[99]).take_ready(200).expect("completion exists");
    assert_eq!(42, result.payload);
}

fn wide_fanout() {
    let mut graph: FlowGraph<BranchPayload, ServerNode<BranchPayload>, BranchIs> = FlowGraph::new();
    let src = graph.add_node(ServerNode::new(
        "src",
        TimedServer::new(ServerConfig { queue_capacity: 32, ..ServerConfig::default() }),
    ));
    let mut sinks = Vec::new();
    for i in 0..32 {
        let sink = graph.add_node(ServerNode::new(
            format!("sink{i}"),
            TimedServer::new(ServerConfig::default()),
        ));
        graph.connect_filtered(src, sink, format!("src->sink{i}"), Link::new(4), BranchIs(i));
        sinks.push(sink);
    }

    for i in 0..32 {
        graph.try_put(src, 0, ServiceRequest::new(BranchPayload { branch: i }, 1)).unwrap();
    }

    for cycle in 0..50 {
        graph.tick(cycle);
    }

    for (i, &sink) in sinks.iter().enumerate() {
        let result = graph.node_mut(sink).take_ready(50).expect("completion exists");
        assert_eq!(result.payload.branch, i);
    }
}

fn busy_backpressure() {
    let mut graph: FlowGraph<&'static str, TestNode> = FlowGraph::new();
    let src = graph.add_node(TestNode::Server(ServerNode::new(
        "src",
        TimedServer::new(ServerConfig::default()),
    )));
    let dst = graph.add_node(TestNode::Busy);
    graph.connect(src, dst, "link", Link::new(2));
    graph.try_put(src, 0, ServiceRequest::new("req", 4)).unwrap();

    for cycle in 0..5 {
        graph.tick(cycle);
    }

    let stats = graph.edge_stats(0);
    assert!(stats.downstream_backpressure > 0);
    assert!(stats.last_delivery_cycle.is_none());
}

#[test]
fn graph_graph_moves_payloads_between_nodes() {
    moves_payloads_between_nodes();
}

#[test]
fn graph_tests_graph_moves_payloads_between_nodes() {
    moves_payloads_between_nodes();
}

#[test]
fn graph_filtered_links_route_payloads() {
    filtered_links();
}

#[test]
fn graph_tests_filtered_links_route_payloads() {
    filtered_links();
}

#[test]
fn graph_route_fn_selects_output_by_index() {
    route_fn_selects_output();
}

#[test]
fn graph_tests_route_fn_selects_output_by_index() {
    route_fn_selects_output();
}

#[test]
fn link_capacity_enforced() {
    let make_result = |size| {
        let mut server = TimedServer::new(ServerConfig::default());
        let ticket = server.try_enqueue(0, ServiceRequest::new("dummy", size)).unwrap();
        ServiceResult { payload: "req", ticket }
    };
    let mut link = Link::with_byte_limit(1, Some(8));
    let result = make_result(4);
    assert!(link.try_push(result).is_ok());

    let result = make_result(4);
    assert!(matches!(link.try_push(result), Err(LinkBackpressure::Capacity { .. })));

    let mut link = Link::with_byte_limit(2, Some(8));
    let result = make_result(6);
    link.try_push(result).unwrap();
    let result = make_result(4);
    assert!(matches!(link.try_push(result), Err(LinkBackpressure::Bytes { .. })));
}

#[test]
fn graph_single_node_graph_processes_requests() {
    single_node_processes();
}

#[test]
fn graph_tests_single_node_graph_processes_requests() {
    single_node_processes();
}

#[test]
fn graph_two_node_linear_chain_latency_accumulates() {
    two_node_chain();
}

#[test]
fn graph_tests_two_node_linear_chain_latency_accumulates() {
    two_node_chain();
}

#[test]
fn graph_empty_graph_tick_is_noop() {
    empty_graph_tick();
}

#[test]
fn graph_tests_empty_graph_tick_is_noop() {
    empty_graph_tick();
}

#[test]
fn graph_node_with_no_outputs_accumulates_completions() {
    leaf_accumulates();
}

#[test]
fn graph_tests_node_with_no_outputs_accumulates_completions() {
    leaf_accumulates();
}

#[test]
fn graph_filtered_link_with_false_predicate_blocks() {
    false_predicate_blocks();
}

#[test]
fn graph_tests_filtered_link_with_false_predicate_blocks() {
    false_predicate_blocks();
}

#[test]
fn graph_three_node_linear_chain() {
    three_node_chain();
}

#[test]
fn graph_tests_three_node_linear_chain() {
    three_node_chain();
}

#[test]
fn graph_multiple_inputs_to_one_node() {
    multiple_inputs();
}

#[test]
fn graph_tests_multiple_inputs_to_one_node() {
    multiple_inputs();
}

#[test]
fn graph_deep_pipeline_100_nodes() {
    deep_pipeline();
}

#[test]
fn graph_tests_deep_pipeline_100_nodes() {
    deep_pipeline();
}

#[test]
fn graph_wide_fanout_32_branches() {
    wide_fanout();
}

#[test]
fn graph_tests_wide_fanout_32_branches() {
    wide_fanout();
}

#[test]
fn graph_busy_nodes_propagate_backpressure() {
    busy_backpressure();
}

#[test]
fn graph_tests_busy_nodes_propagate_backpressure() {
    busy_backpressure();
}
