//! Configuration of the synthetic traffic front end.

use vstd::prelude::*;

verus! {

#[derive(Debug, Clone)]
pub struct TrafficAddressConfig {
    pub cluster_id: usize,
    pub smem_base: u64,
    pub smem_size_bytes: u64,
}

impl Default for TrafficAddressConfig {
    fn default() -> (r: Self)
        ensures
            r.cluster_id == 0,
            r.smem_base == 0x4000_0000,
            r.smem_size_bytes == 128 * 1024,
    {
        Self { cluster_id: 0, smem_base: 0x4000_0000, smem_size_bytes: 131072 }
    }
}

#[derive(Debug, Clone)]
pub struct TrafficIssueConfig {
    pub max_inflight_per_lane: usize,
    pub retry_backoff_min: u64,
}

impl Default for TrafficIssueConfig {
    fn default() -> (r: Self)
        ensures
            r.max_inflight_per_lane == 16,
            r.retry_backoff_min == 1,
    {
        Self { max_inflight_per_lane: 16, retry_backoff_min: 1 }
    }
}

#[derive(Debug, Clone)]
pub struct TrafficLoggingConfig {
    pub print_traffic_lines: bool,
    pub results_json: Option<String>,
    pub results_csv: Option<String>,
}

impl Default for TrafficLoggingConfig {
    fn default() -> (r: Self)
        ensures
            r.print_traffic_lines,
            r.results_json is None,
            r.results_csv is None,
    {
        Self { print_traffic_lines: true, results_json: None, results_csv: None }
    }
}

#[derive(Debug, Clone)]
pub struct TrafficPatternSpec {
    pub name: String,
    pub kind: String,
    pub req_bytes: u32,
    pub op: String,
}

impl TrafficPatternSpec {
    /// A copy of this pattern.
    pub fn duplicate(&self) -> (r: Self)
        ensures
            r == *self,
    {
        TrafficPatternSpec {
            name: self.name.clone(),
            kind: self.kind.clone(),
            req_bytes: self.req_bytes,
            op: self.op.clone(),
        }
    }
}

impl Default for TrafficPatternSpec {
    fn default() -> (r: Self)
        ensures
            r.name@.len() == 0,
            r.kind@.len() == 0,
            r.req_bytes == 4,
            r.op@ == "read"@,
    {
        Self { name: String::new(), kind: String::new(), req_bytes: 4, op: "read".to_owned() }
    }
}

#[derive(Debug, Clone)]
pub struct TrafficConfig {
    pub enabled: bool,
    pub lockstep_patterns: bool,
    pub reqs_per_pattern: u32,
    pub num_lanes: usize,
    pub preset: Option<String>,
    pub address: TrafficAddressConfig,
    pub issue: TrafficIssueConfig,
    pub logging: TrafficLoggingConfig,
    pub patterns: Vec<TrafficPatternSpec>,
}

impl Default for TrafficConfig {
    fn default() -> (r: Self)
        ensures
            !r.enabled,
            r.lockstep_patterns,
            r.reqs_per_pattern == 4096,
            r.num_lanes == 16,
            r.preset is None,
            r.address.cluster_id == 0,
            r.address.smem_base == 0x4000_0000,
            r.address.smem_size_bytes == 128 * 1024,
            r.issue.max_inflight_per_lane == 16,
            r.issue.retry_backoff_min == 1,
            r.logging.print_traffic_lines,
            r.logging.results_json is None,
            r.logging.results_csv is None,
            r.patterns@.len() == 0,
    {
        Self {
            enabled: false,
            lockstep_patterns: true,
            reqs_per_pattern: 4096,
            num_lanes: 16,
            preset: None,
            address: TrafficAddressConfig::default(),
            issue: TrafficIssueConfig::default(),
            logging: TrafficLoggingConfig::default(),
            patterns: Vec::new(),
        }
    }
}

} // verus!
