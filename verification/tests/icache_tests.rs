use cyclotron::timeflow::gmem::HashRule;
use cyclotron::timeflow::icache::{
    IcacheFlowConfig, IcacheRejectReason, IcacheRequest, IcacheSubgraph,
};

#[test]
fn icache_icache_hit_ready_at_now_with_zero_latency() {
    let mut cfg = IcacheFlowConfig::default();
    cfg.policy.hit = HashRule::Always;
    cfg.hit.base_latency = 0;
    let mut icache = IcacheSubgraph::new(cfg);
    let req = IcacheRequest::new(0, 0x1000, 8);
    let issue = icache.issue(10, req).expect("hit should accept");
    assert_eq!(issue.ticket.ready_at(), 10);
}

#[test]
fn icache_icache_miss_latency_applies() {
    let mut cfg = IcacheFlowConfig::default();
    cfg.policy.hit = HashRule::Never;
    cfg.miss.base_latency = 7;
    let mut icache = IcacheSubgraph::new(cfg);
    let req = IcacheRequest::new(0, 0x1000, 8);
    let issue = icache.issue(5, req).expect("miss should accept");
    assert_eq!(issue.ticket.ready_at(), 12);
}

#[test]
fn icache_icache_queue_full_rejects() {
    let mut cfg = IcacheFlowConfig::default();
    cfg.policy.hit = HashRule::Never;
    cfg.miss.queue_capacity = 1;
    let mut icache = IcacheSubgraph::new(cfg);
    let req0 = IcacheRequest::new(0, 0x1000, 8);
    icache.issue(0, req0).expect("first miss should accept");
    let req1 = IcacheRequest::new(1, 0x2000, 8);
    let err = icache.issue(0, req1).expect_err("second miss should reject");
    assert!(err.retry_at > 0);
}

#[test]
fn icache_tests_icache_hit_ready_at_now_with_zero_latency() {
    let mut cfg = IcacheFlowConfig::default();
    cfg.policy.hit = HashRule::Always;
    cfg.hit.base_latency = 0;
    let mut icache = IcacheSubgraph::new(cfg);
    let req = IcacheRequest::new(0, 0x1000, 8);
    let issue = icache.issue(10, req).expect("hit should accept");
    assert_eq!(issue.ticket.ready_at(), 10);
}

#[test]
fn icache_tests_icache_miss_latency_applies() {
    let mut cfg = IcacheFlowConfig::default();
    cfg.policy.hit = HashRule::Never;
    cfg.miss.base_latency = 7;
    let mut icache = IcacheSubgraph::new(cfg);
    let req = IcacheRequest::new(0, 0x1000, 8);
    let issue = icache.issue(5, req).expect("miss should accept");
    assert_eq!(issue.ticket.ready_at(), 12);
}

#[test]
fn icache_tests_icache_queue_full_rejects() {
    let mut cfg = IcacheFlowConfig::default();
    cfg.policy.hit = HashRule::Never;
    cfg.miss.queue_capacity = 1;
    let mut icache = IcacheSubgraph::new(cfg);
    let req0 = IcacheRequest::new(0, 0x1000, 8);
    icache.issue(0, req0).expect("first miss should accept");
    let req1 = IcacheRequest::new(1, 0x2000, 8);
    let err = icache.issue(0, req1).expect_err("second miss should reject");
    assert!(err.retry_at > 0);
}

#[test]
fn icache_hit_rate_one_always_hits() {
    let mut cfg = IcacheFlowConfig::default();
    cfg.policy.hit = HashRule::Always;
    cfg.hit.base_latency = 1;
    let mut icache = IcacheSubgraph::new(cfg);
    let req = IcacheRequest::new(0, 0x2000, 8);
    let issue = icache.issue(10, req).expect("hit should accept");
    assert_eq!(11, issue.ticket.ready_at());
}

#[test]
fn icache_hit_rate_zero_always_misses() {
    let mut cfg = IcacheFlowConfig::default();
    cfg.policy.hit = HashRule::Never;
    cfg.miss.base_latency = 5;
    let mut icache = IcacheSubgraph::new(cfg);
    let req = IcacheRequest::new(0, 0x2000, 8);
    let issue = icache.issue(3, req).expect("miss should accept");
    assert_eq!(8, issue.ticket.ready_at());
}

#[test]
fn icache_line_address_computed_correctly() {
    let mut cfg = IcacheFlowConfig::default();
    cfg.policy.hit = HashRule::Always;
    cfg.policy.line_bytes = 32;
    let mut icache = IcacheSubgraph::new(cfg);
    let req = IcacheRequest::new(0, 0x1040, 8);
    let issue = icache.issue(0, req).expect("hit should accept");
    icache.tick(issue.ticket.ready_at());
    let stats = icache.stats();
    assert_eq!(1, stats.issued);
    assert_eq!(1, stats.hits);
}

#[test]
fn icache_stats_track_hits_and_misses() {
    let mut cfg = IcacheFlowConfig::default();
    cfg.policy.hit = HashRule::Never;
    let mut icache = IcacheSubgraph::new(cfg);
    let req = IcacheRequest::new(0, 0x1000, 8);
    let issue = icache.issue(0, req).expect("miss should accept");
    icache.tick(issue.ticket.ready_at());
    let stats = icache.stats();
    assert_eq!(1, stats.issued);
    assert_eq!(1, stats.misses);
    assert_eq!(1, stats.completed);
}

#[test]
fn icache_many_parallel_fetches() {
    let mut cfg = IcacheFlowConfig::default();
    cfg.policy.hit = HashRule::Always;
    cfg.hit.queue_capacity = 8;
    cfg.hit.base_latency = 0;
    let mut icache = IcacheSubgraph::new(cfg);

    for warp in 0..8 {
        let req = IcacheRequest::new(warp, 0x1000 + (warp as u32) * 4, 8);
        icache.issue(0, req).expect("issue should succeed");
    }
    icache.tick(0);
    let stats = icache.stats();
    assert_eq!(8, stats.issued);
    assert_eq!(8, stats.completed);
}

#[test]
fn icache_pc_zero_handling() {
    let mut cfg = IcacheFlowConfig::default();
    cfg.policy.hit = HashRule::Always;
    cfg.hit.base_latency = 0;
    let mut icache = IcacheSubgraph::new(cfg);

    let req = IcacheRequest::new(0, 0, 8);
    let issue = icache.issue(0, req).expect("issue should succeed");
    icache.tick(issue.ticket.ready_at());
    let stats = icache.stats();
    assert_eq!(1, stats.completed);
}

#[test]
fn icache_reject_hands_back_classified_request() {
    let mut cfg = IcacheFlowConfig::default();
    cfg.policy.hit = HashRule::Never;
    cfg.policy.line_bytes = 32;
    cfg.miss.queue_capacity = 1;
    cfg.miss.base_latency = 9;
    let mut icache = IcacheSubgraph::new(cfg);
    icache.issue(2, IcacheRequest::new(0, 0x1000, 8)).expect("first miss should accept");
    let err = icache
        .issue(3, IcacheRequest::new(1, 0x1045, 8))
        .expect_err("second miss should reject");
    assert_eq!(err.reason, IcacheRejectReason::QueueFull);
    // The oldest fetch in flight is ready at 2 + 9.
    assert_eq!(err.retry_at, 11);
    assert_eq!(err.request.line_addr, 0x1045 / 32);
    assert!(err.request.miss);
    assert_eq!(err.request.warp, 1);
    let stats = icache.stats();
    assert_eq!(stats.queue_full_rejects, 1);
    assert_eq!(stats.issued, 1);
}

#[test]
fn icache_warmup_refuses_busy() {
    let mut cfg = IcacheFlowConfig::default();
    cfg.policy.hit = HashRule::Always;
    cfg.hit.warmup_latency = 6;
    let mut icache = IcacheSubgraph::new(cfg);
    let err = icache
        .issue(2, IcacheRequest::new(0, 0x40, 4))
        .expect_err("warming path should refuse");
    assert_eq!(err.reason, IcacheRejectReason::Busy);
    assert_eq!(err.retry_at, 6);
    assert_eq!(icache.stats().busy_rejects, 1);
    let issue = icache.issue(6, IcacheRequest::new(0, 0x40, 4)).expect("warm path accepts");
    assert_eq!(issue.ticket.ready_at(), 6);
}

#[test]
fn icache_tick_counts_fetched_bytes_and_cycle() {
    let mut cfg = IcacheFlowConfig::default();
    cfg.policy.hit = HashRule::Always;
    let mut icache = IcacheSubgraph::new(cfg);
    icache.issue(4, IcacheRequest::new(0, 0x100, 8)).expect("accept");
    icache.issue(4, IcacheRequest::new(1, 0x104, 16)).expect("accept");
    icache.tick(3);
    assert_eq!(icache.stats().completed, 0);
    assert_eq!(icache.stats().last_completion_cycle, None);
    icache.tick(4);
    let stats = icache.stats();
    assert_eq!(stats.completed, 2);
    assert_eq!(stats.bytes_completed, 24);
    assert_eq!(stats.bytes_issued, 24);
    assert_eq!(stats.last_completion_cycle, Some(4));
    // A second tick in the same cycle retires nothing more.
    icache.tick(4);
    assert_eq!(icache.stats().completed, 2);
}

#[test]
fn icache_default_config_splits_by_hash() {
    let cfg = IcacheFlowConfig::default();
    assert_eq!(cfg.policy.line_bytes, 32);
    assert_eq!(cfg.policy.hit, HashRule::HashAtMost(0xfae1_47ae_147a_e000));
    assert_eq!(cfg.miss.base_latency, 40);
    let mut icache = IcacheSubgraph::new(cfg);
    let mut hits = 0u64;
    let mut misses = 0u64;
    for i in 0..16u32 {
        match icache.issue(0, IcacheRequest::new(0, i * 32, 4)) {
            Ok(_) => {}
            Err(_) => {}
        }
        let s = icache.stats();
        hits = s.hits;
        misses = s.misses;
    }
    assert_eq!(hits + misses, 16);
}
