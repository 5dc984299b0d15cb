use cyclotron::timeflow::execute::{ExecUnitKind, ExecutePipeline, ExecutePipelineConfig};
use cyclotron::timeq::{Backpressure, ServerConfig};

#[test]
fn execute_pipeline_busy_blocks_queue() {
    let config = ExecutePipelineConfig {
        alu: ServerConfig {
            base_latency: 1,
            bytes_per_cycle: 1,
            queue_capacity: 1,
            completions_per_cycle: 1,
            warmup_latency: 0,
        },
        ..Default::default()
    };
    let mut pipeline = ExecutePipeline::new(config);
    let now = 0;
    let ticket = pipeline.issue(now, ExecUnitKind::Int, 8).expect("first request accepts");
    assert!(ticket.ready_at() > now);

    let err = pipeline.issue(now, ExecUnitKind::Int, 8).expect_err("second request should queue-full");
    match err {
        Backpressure::QueueFull { .. } => {}
        _ => panic!("unexpected backpressure reason"),
    }
}
