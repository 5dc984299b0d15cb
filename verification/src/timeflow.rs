//! Timing components of a core: issue queues, execution units, barriers,
//! the load/store unit and the global and shared memory models.

pub mod barrier;
pub mod core_graph;
pub mod dma;
pub mod execute;
pub mod fence;
pub mod gmem;
pub mod graph;
pub mod icache;
pub mod lsu;
pub mod operand_fetch;
pub mod server_node;
pub mod simple_queue;
pub mod smem;
pub mod tensor;
pub mod types;
pub mod warp_scheduler;
pub mod writeback;

pub use barrier::{BarrierConfig, BarrierManager};
pub use core_graph::{CoreGraph, CoreGraphConfig};
pub use dma::{DmaConfig, DmaQueue, DmaReject, DmaRejectReason};
pub use execute::{ExecUnitKind, ExecutePipeline, ExecutePipelineConfig};
pub use fence::{
    FenceConfig, FenceIssue, FenceQueue, FenceReject, FenceRejectReason, FenceRequest,
};
pub use gmem::{
    ClusterGmemGraph, GmemCompletion, GmemFlowConfig, GmemIssue, GmemPolicyConfig, GmemReject,
    GmemRejectReason, GmemRequest, GmemRequestKind, GmemStats,
};
pub use graph::{EdgeStats, FlowGraph, Link, LinkBackpressure, TimedNode};
pub use icache::{
    IcacheFlowConfig, IcacheIssue, IcacheReject, IcacheRejectReason, IcacheRequest, IcacheStats,
    IcacheSubgraph,
};
pub use lsu::{
    LsuCompletion, LsuFlowConfig, LsuIssue, LsuReject, LsuRejectReason, LsuStats, LsuSubgraph,
};
pub use operand_fetch::{
    OperandFetchConfig, OperandFetchQueue, OperandFetchReject, OperandFetchRejectReason,
};
pub use server_node::ServerNode;
pub use smem::{
    SmemCompletion, SmemFlowConfig, SmemIssue, SmemReject, SmemRejectReason, SmemRequest, SmemStats,
};
pub use tensor::{TensorConfig, TensorQueue, TensorReject, TensorRejectReason};
pub use types::{CoreFlowPayload, LinkId, NodeId};
pub use warp_scheduler::{WarpIssueScheduler, WarpSchedulerConfig};
pub use writeback::{
    WritebackConfig, WritebackIssue, WritebackPayload, WritebackQueue, WritebackReject,
    WritebackRejectReason,
};
