//! Global memory: requests, statistics, cache tags, MSHRs, bank policy and
//! the clustered cache hierarchy.

pub mod cache;
pub mod cluster;
pub mod cluster_graph;
pub mod front;
pub mod graph_build;
pub mod mshr;
pub mod policy;
pub mod request;
pub mod stats;

pub use request::{
    extract_gmem_request, GmemCompletion, GmemIssue, GmemReject, GmemRejectReason, GmemRequest,
    GmemRequestKind, GmemResult,
};
pub use stats::{GmemCounters, GmemStats};
pub use cluster_graph::ClusterGmemGraph;
pub use graph_build::{CacheLevelConfig, GmemFlowConfig, GmemLinkConfig, GmemNodeConfig, LinkConfig};
pub use policy::{GmemPolicyConfig, HashRule};
