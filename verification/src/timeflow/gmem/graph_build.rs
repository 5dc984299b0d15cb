//! Configuration of the global-memory graph: links, fixed nodes and the
//! servers of each cache level.

use crate::timeflow::gmem::policy::GmemPolicyConfig;
use crate::timeflow::gmem::request::{GmemRequest, GmemRequestKind};
use crate::timeflow::graph::{AcceptAll, FlowGraph, Link, RouteFn};
use crate::timeflow::server_node::ServerNode;
use crate::timeflow::types::{decimal, indexed_name, CoreFlowPayload, NodeId};
use crate::timeq::{sat_mul_usize, ServerConfig, TimedServer};
use vstd::prelude::*;

verus! {

#[derive(Debug, Clone, Copy)]
pub struct LinkConfig {
    pub entries: usize,
    pub bytes: Option<u32>,
}

impl Default for LinkConfig {
    fn default() -> (r: Self)
        ensures
            r.entries == 16,
            r.bytes is None,
    {
        Self { entries: 16, bytes: None }
    }
}

impl LinkConfig {
    /// A link of `entries` entries, byte-limited when `bytes` is set.
    pub fn build<T>(&self) -> (r: Link<T>)
        requires
            self.entries > 0,
        ensures
            r.wf(),
            r.items().len() == 0,
            r.capacity_spec() == self.entries,
            r.byte_limit() == self.bytes,
    {
        match self.bytes {
            Some(limit) => Link::with_byte_limit(self.entries, Some(limit)),
            None => Link::new(self.entries),
        }
    }
}

/// A server with the given latency, bandwidth and capacity and the other
/// fields at their defaults.
pub open spec fn server_cfg_spec(base_latency: u64, bytes_per_cycle: u32, queue_capacity: usize) -> ServerConfig {
    ServerConfig {
        base_latency,
        bytes_per_cycle,
        queue_capacity,
        completions_per_cycle: u32::MAX,
        warmup_latency: 0,
    }
}

pub fn server_cfg(base_latency: u64, bytes_per_cycle: u32, queue_capacity: usize) -> (r: ServerConfig)
    ensures
        r == server_cfg_spec(base_latency, bytes_per_cycle, queue_capacity),
{
    ServerConfig {
        base_latency,
        bytes_per_cycle,
        queue_capacity,
        completions_per_cycle: u32::MAX,
        warmup_latency: 0,
    }
}

/// The default server configuration.
pub open spec fn default_server_spec() -> ServerConfig {
    ServerConfig {
        base_latency: 0,
        bytes_per_cycle: 1,
        queue_capacity: 1,
        completions_per_cycle: u32::MAX,
        warmup_latency: 0,
    }
}

#[derive(Debug, Clone, Copy)]
pub struct GmemNodeConfig {
    pub coalescer: ServerConfig,
    pub l0_flush_gate: ServerConfig,
    pub l1_flush_gate: ServerConfig,
    pub dram: ServerConfig,
    pub return_path: ServerConfig,
}

#[derive(Debug, Clone, Copy)]
pub struct CacheLevelConfig {
    pub banks: usize,
    pub tag: ServerConfig,
    pub data: ServerConfig,
    pub mshr: ServerConfig,
    pub refill: ServerConfig,
    pub writeback: ServerConfig,
}

impl Default for CacheLevelConfig {
    fn default() -> (r: Self)
        ensures
            r.banks == 1,
            r.tag == default_server_spec(),
            r.data == default_server_spec(),
            r.mshr == default_server_spec(),
            r.refill == default_server_spec(),
            r.writeback == default_server_spec(),
    {
        Self {
            banks: 1,
            tag: ServerConfig::default(),
            data: ServerConfig::default(),
            mshr: ServerConfig::default(),
            refill: ServerConfig::default(),
            writeback: ServerConfig::default(),
        }
    }
}

impl CacheLevelConfig {
    pub fn new(
        banks: usize,
        tag: ServerConfig,
        data: ServerConfig,
        mshr: ServerConfig,
        refill: ServerConfig,
        writeback: ServerConfig,
    ) -> (r: Self)
        ensures
            r == (CacheLevelConfig { banks, tag, data, mshr, refill, writeback }),
    {
        Self { banks, tag, data, mshr, refill, writeback }
    }
}

impl Default for GmemNodeConfig {
    fn default() -> (r: Self)
        ensures
            r.coalescer == server_cfg_spec(1, 8, 16),
            r.l0_flush_gate == server_cfg_spec(0, 64, 8),
            r.l1_flush_gate == server_cfg_spec(0, 64, 8),
            r.dram == server_cfg_spec(200, 32, 64),
            r.return_path == server_cfg_spec(0, 1024, 128),
    {
        Self {
            coalescer: server_cfg(1, 8, 16),
            l0_flush_gate: server_cfg(0, 64, 8),
            l1_flush_gate: server_cfg(0, 64, 8),
            dram: server_cfg(200, 32, 64),
            return_path: server_cfg(0, 1024, 128),
        }
    }
}

#[derive(Debug, Clone, Copy)]
pub struct GmemLinkConfig {
    pub default: LinkConfig,
    pub coalescer_to_l0_flush: Option<LinkConfig>,
    pub l0_flush_to_l0_tag: Option<LinkConfig>,
    pub l0_flush_to_return: Option<LinkConfig>,
    pub l0_flush_to_l1_flush: Option<LinkConfig>,
    pub l0_tag_to_l0_hit: Option<LinkConfig>,
    pub l0_tag_to_l0_mshr: Option<LinkConfig>,
    pub l0_hit_to_return: Option<LinkConfig>,
    pub l0_mshr_to_l1_flush: Option<LinkConfig>,
    pub l1_flush_to_l1_tag: Option<LinkConfig>,
    pub l1_flush_to_return: Option<LinkConfig>,
    pub l1_tag_to_l1_hit: Option<LinkConfig>,
    pub l1_tag_to_l1_mshr: Option<LinkConfig>,
    pub l1_hit_to_return: Option<LinkConfig>,
    pub l1_mshr_to_l1_writeback: Option<LinkConfig>,
    pub l1_mshr_to_l2_tag: Option<LinkConfig>,
    pub l1_writeback_to_l2_tag: Option<LinkConfig>,
    pub l2_tag_to_l2_hit: Option<LinkConfig>,
    pub l2_tag_to_l2_mshr: Option<LinkConfig>,
    pub l2_hit_to_l1_refill: Option<LinkConfig>,
    pub l2_mshr_to_l2_writeback: Option<LinkConfig>,
    pub l2_mshr_to_dram: Option<LinkConfig>,
    pub l2_writeback_to_dram: Option<LinkConfig>,
    pub dram_to_l2_refill: Option<LinkConfig>,
    pub l2_refill_to_l1_refill: Option<LinkConfig>,
    pub l1_refill_to_return: Option<LinkConfig>,
}

impl GmemLinkConfig {
    /// Every link takes the default configuration.
    pub open spec fn all_default(self) -> bool {
        &&& self.coalescer_to_l0_flush is None
        &&& self.l0_flush_to_l0_tag is None
        &&& self.l0_flush_to_return is None
        &&& self.l0_flush_to_l1_flush is None
        &&& self.l0_tag_to_l0_hit is None
        &&& self.l0_tag_to_l0_mshr is None
        &&& self.l0_hit_to_return is None
        &&& self.l0_mshr_to_l1_flush is None
        &&& self.l1_flush_to_l1_tag is None
        &&& self.l1_flush_to_return is None
        &&& self.l1_tag_to_l1_hit is None
        &&& self.l1_tag_to_l1_mshr is None
        &&& self.l1_hit_to_return is None
        &&& self.l1_mshr_to_l1_writeback is None
        &&& self.l1_mshr_to_l2_tag is None
        &&& self.l1_writeback_to_l2_tag is None
        &&& self.l2_tag_to_l2_hit is None
        &&& self.l2_tag_to_l2_mshr is None
        &&& self.l2_hit_to_l1_refill is None
        &&& self.l2_mshr_to_l2_writeback is None
        &&& self.l2_mshr_to_dram is None
        &&& self.l2_writeback_to_dram is None
        &&& self.dram_to_l2_refill is None
        &&& self.l2_refill_to_l1_refill is None
        &&& self.l1_refill_to_return is None
    }
}

impl Default for GmemLinkConfig {
    fn default() -> (r: Self)
        ensures
            r.default.entries == 16,
            r.default.bytes is None,
            r.all_default(),
    {
        Self {
            default: LinkConfig::default(),
            coalescer_to_l0_flush: None,
            l0_flush_to_l0_tag: None,
            l0_flush_to_return: None,
            l0_flush_to_l1_flush: None,
            l0_tag_to_l0_hit: None,
            l0_tag_to_l0_mshr: None,
            l0_hit_to_return: None,
            l0_mshr_to_l1_flush: None,
            l1_flush_to_l1_tag: None,
            l1_flush_to_return: None,
            l1_tag_to_l1_hit: None,
            l1_tag_to_l1_mshr: None,
            l1_hit_to_return: None,
            l1_mshr_to_l1_writeback: None,
            l1_mshr_to_l2_tag: None,
            l1_writeback_to_l2_tag: None,
            l2_tag_to_l2_hit: None,
            l2_tag_to_l2_mshr: None,
            l2_hit_to_l1_refill: None,
            l2_mshr_to_l2_writeback: None,
            l2_mshr_to_dram: None,
            l2_writeback_to_dram: None,
            dram_to_l2_refill: None,
            l2_refill_to_l1_refill: None,
            l1_refill_to_return: None,
        }
    }
}

/// Per-level defaults: the L0, L1 and L2 caches.
pub open spec fn default_levels_spec() -> Seq<CacheLevelConfig> {
    seq![
        CacheLevelConfig {
            banks: 1,
            tag: server_cfg_spec(1, 64, 8),
            data: server_cfg_spec(2, 64, 8),
            mshr: server_cfg_spec(1, 64, 8),
            refill: server_cfg_spec(1, 64, 8),
            writeback: server_cfg_spec(1, 64, 8),
        },
        CacheLevelConfig {
            banks: 2,
            tag: server_cfg_spec(2, 64, 16),
            data: server_cfg_spec(6, 64, 16),
            mshr: server_cfg_spec(1, 64, 8),
            refill: server_cfg_spec(4, 32, 16),
            writeback: server_cfg_spec(2, 32, 8),
        },
        CacheLevelConfig {
            banks: 1,
            tag: server_cfg_spec(4, 64, 16),
            data: server_cfg_spec(6, 64, 16),
            mshr: server_cfg_spec(1, 64, 16),
            refill: server_cfg_spec(8, 32, 16),
            writeback: server_cfg_spec(4, 32, 8),
        },
    ]
}

pub fn default_levels() -> (r: Vec<CacheLevelConfig>)
    ensures
        r@ == default_levels_spec(),
{
    let mut v: Vec<CacheLevelConfig> = Vec::new();
    v.push(CacheLevelConfig::new(1, server_cfg(1, 64, 8), server_cfg(2, 64, 8), server_cfg(1, 64, 8), server_cfg(1, 64, 8), server_cfg(1, 64, 8)));
    v.push(CacheLevelConfig::new(2, server_cfg(2, 64, 16), server_cfg(6, 64, 16), server_cfg(1, 64, 8), server_cfg(4, 32, 16), server_cfg(2, 32, 8)));
    v.push(CacheLevelConfig::new(1, server_cfg(4, 64, 16), server_cfg(6, 64, 16), server_cfg(1, 64, 16), server_cfg(8, 32, 16), server_cfg(4, 32, 8)));
    assert(v@ =~= default_levels_spec());
    v
}

/// The whole configuration of the global-memory model.
#[derive(Debug, Clone)]
pub struct GmemFlowConfig {
    pub nodes: GmemNodeConfig,
    pub links: GmemLinkConfig,
    pub policy: GmemPolicyConfig,
    pub levels: Vec<CacheLevelConfig>,
}

impl GmemFlowConfig {
    /// The values that `default()` gives.
    pub open spec fn is_default(self) -> bool {
        &&& self.levels@ == default_levels_spec()
        &&& self.links.all_default()
        &&& self.links.default.entries == 16
        &&& self.links.default.bytes is None
        &&& self.nodes.coalescer == server_cfg_spec(1, 8, 16)
        &&& self.nodes.l0_flush_gate == server_cfg_spec(0, 64, 8)
        &&& self.nodes.l1_flush_gate == server_cfg_spec(0, 64, 8)
        &&& self.nodes.dram == server_cfg_spec(200, 32, 64)
        &&& self.nodes.return_path == server_cfg_spec(0, 1024, 128)
        &&& self.policy.l0_enabled
    }
}

impl Default for GmemFlowConfig {
    fn default() -> (r: Self)
        ensures
            r.is_default(),
    {
        Self {
            nodes: GmemNodeConfig::default(),
            links: GmemLinkConfig::default(),
            policy: GmemPolicyConfig::default(),
            levels: default_levels(),
        }
    }
}

/// `c` with no latency, 1024 bytes per cycle and room for 8 requests.
pub open spec fn zeroed_server(c: ServerConfig) -> ServerConfig {
    ServerConfig { base_latency: 0, bytes_per_cycle: 1024, queue_capacity: 8, ..c }
}

fn zero_server(c: ServerConfig) -> (r: ServerConfig)
    ensures
        r == zeroed_server(c),
{
    ServerConfig { base_latency: 0, bytes_per_cycle: 1024, queue_capacity: 8, ..c }
}

/// `level` with every server zeroed.
pub open spec fn zeroed_level(level: CacheLevelConfig) -> CacheLevelConfig {
    CacheLevelConfig {
        tag: zeroed_server(level.tag),
        data: zeroed_server(level.data),
        mshr: zeroed_server(level.mshr),
        refill: zeroed_server(level.refill),
        writeback: zeroed_server(level.writeback),
        ..level
    }
}

impl GmemFlowConfig {
    /// The default configuration with every node and cache server at zero
    /// latency, 1024 bytes per cycle and 8 entries, and default links of 8
    /// entries.
    pub fn zeroed() -> (r: Self)
        ensures
            r.nodes.coalescer == zeroed_server(server_cfg_spec(1, 8, 16)),
            r.nodes.l0_flush_gate == zeroed_server(server_cfg_spec(0, 64, 8)),
            r.nodes.l1_flush_gate == zeroed_server(server_cfg_spec(0, 64, 8)),
            r.nodes.dram == zeroed_server(server_cfg_spec(200, 32, 64)),
            r.nodes.return_path == zeroed_server(server_cfg_spec(0, 1024, 128)),
            r.levels@ == default_levels_spec().map_values(|l: CacheLevelConfig| zeroed_level(l)),
            r.links.all_default(),
            r.links.default.entries == 8,
            r.links.default.bytes is None,
            r.policy.l0_enabled,
    {
        let mut cfg = Self::default();
        cfg.nodes.coalescer = zero_server(cfg.nodes.coalescer);
        cfg.nodes.l0_flush_gate = zero_server(cfg.nodes.l0_flush_gate);
        cfg.nodes.l1_flush_gate = zero_server(cfg.nodes.l1_flush_gate);
        cfg.nodes.dram = zero_server(cfg.nodes.dram);
        cfg.nodes.return_path = zero_server(cfg.nodes.return_path);
        let ghost levels0 = cfg.levels@;
        let ghost nodes0 = cfg.nodes;
        let ghost links0 = cfg.links;
        let ghost policy0 = cfg.policy;
        let mut i: usize = 0;
        while i < cfg.levels.len()
            invariant
                cfg.nodes == nodes0,
                cfg.links == links0,
                cfg.policy == policy0,
                levels0 == default_levels_spec(),
                cfg.levels@.len() == levels0.len(),
                i <= levels0.len(),
                forall|k: int| 0 <= k < i ==> #[trigger] cfg.levels@[k] == zeroed_level(levels0[k]),
                forall|k: int| i <= k < levels0.len() ==> #[trigger] cfg.levels@[k] == levels0[k],
            decreases levels0.len() - i,
        {
            let level = cfg.levels[i];
            let z = CacheLevelConfig {
                tag: zero_server(level.tag),
                data: zero_server(level.data),
                mshr: zero_server(level.mshr),
                refill: zero_server(level.refill),
                writeback: zero_server(level.writeback),
                ..level
            };
            cfg.levels.set(i, z);
            i = i + 1;
        }
        assert(cfg.levels@ =~= levels0.map_values(|l: CacheLevelConfig| zeroed_level(l)));
        cfg.links.default.entries = 8;
        cfg
    }

    /// The configurations a cluster graph can be built from: three cache
    /// levels, servers that can be built, links with room, and tag arrays
    /// that fit in memory.
    pub open spec fn buildable(&self) -> bool {
        &&& self.levels@.len() >= 3
        &&& self.nodes.coalescer.valid()
        &&& self.nodes.l0_flush_gate.valid()
        &&& self.nodes.l1_flush_gate.valid()
        &&& self.nodes.dram.valid()
        &&& self.nodes.return_path.valid()
        &&& forall|i: int| 0 <= i < 3 ==> #[trigger] level_buildable(self.levels@[i])
        &&& self.links.buildable()
        &&& fits(self.policy.l0_sets, self.policy.l0_ways)
        &&& fits(self.policy.l1_sets, self.policy.l1_ways)
        &&& fits(self.policy.l2_sets, self.policy.l2_ways)
    }
}

/// A tag array of `sets` by `ways` (each at least one) fits in memory.
pub open spec fn fits(sets: usize, ways: usize) -> bool {
    (if sets >= 1 {
        sets
    } else {
        1
    }) * (if ways >= 1 {
        ways
    } else {
        1
    }) <= usize::MAX
}

/// Every server of `level` can be built.
pub open spec fn level_buildable(level: CacheLevelConfig) -> bool {
    &&& level.tag.valid()
    &&& level.data.valid()
    &&& level.mshr.valid()
    &&& level.refill.valid()
    &&& level.writeback.valid()
}

/// `c` (when set) or else `default` describes a link with room.
pub open spec fn link_ok(c: Option<LinkConfig>, default: LinkConfig) -> bool {
    match c {
        Some(l) => l.entries > 0,
        None => default.entries > 0,
    }
}

impl GmemLinkConfig {
    /// Every link the graph builds has room for at least one entry.
    pub open spec fn buildable(self) -> bool {
        &&& self.default.entries > 0
        &&& link_ok(self.coalescer_to_l0_flush, self.default)
        &&& link_ok(self.l0_flush_to_l0_tag, self.default)
        &&& link_ok(self.l0_flush_to_return, self.default)
        &&& link_ok(self.l0_flush_to_l1_flush, self.default)
        &&& link_ok(self.l0_tag_to_l0_hit, self.default)
        &&& link_ok(self.l0_tag_to_l0_mshr, self.default)
        &&& link_ok(self.l0_hit_to_return, self.default)
        &&& link_ok(self.l0_mshr_to_l1_flush, self.default)
        &&& link_ok(self.l1_flush_to_l1_tag, self.default)
        &&& link_ok(self.l1_flush_to_return, self.default)
        &&& link_ok(self.l1_tag_to_l1_hit, self.default)
        &&& link_ok(self.l1_tag_to_l1_mshr, self.default)
        &&& link_ok(self.l1_hit_to_return, self.default)
        &&& link_ok(self.l1_mshr_to_l1_writeback, self.default)
        &&& link_ok(self.l1_mshr_to_l2_tag, self.default)
        &&& link_ok(self.l1_writeback_to_l2_tag, self.default)
        &&& link_ok(self.l2_tag_to_l2_hit, self.default)
        &&& link_ok(self.l2_tag_to_l2_mshr, self.default)
        &&& link_ok(self.l2_hit_to_l1_refill, self.default)
        &&& link_ok(self.l2_mshr_to_l2_writeback, self.default)
        &&& link_ok(self.l2_mshr_to_dram, self.default)
        &&& link_ok(self.l2_writeback_to_dram, self.default)
        &&& link_ok(self.dram_to_l2_refill, self.default)
        &&& link_ok(self.l2_refill_to_l1_refill, self.default)
        &&& link_ok(self.l1_refill_to_return, self.default)
    }
}

/// The link that `c` describes, or the default one.
fn link(c: Option<LinkConfig>, default: LinkConfig) -> (r: Link<CoreFlowPayload>)
    requires
        link_ok(c, default),
    ensures
        r.wf(),
        r.items().len() == 0,
{
    match c {
        Some(l) => l.build(),
        None => default.build(),
    }
}

/// How a node of the global-memory graph picks the output of a request.
#[derive(Debug, Clone, Copy)]
pub enum GmemRoute {
    /// L2 tags: hits to the data array (0), misses to the MSHRs (1).
    L2Tag,
    /// L2 MSHRs: writebacks first (0), else to DRAM (1).
    L2Mshr,
    /// The output of the request's L2 bank.
    L2Bank,
    /// L1 tags: hits to the data array (0), misses to the MSHRs (1).
    L1Tag,
    /// L1 MSHRs: writebacks (0), else the L2 tags of the request's bank.
    L1Mshr,
    /// L1 flush gate: accesses to their L1 bank, L1 flushes back to the
    /// issuing core of the cluster.
    L1FlushGate { base_core: usize, cores_per_cluster: usize, l1_banks: usize },
    /// The L1 refill of the request's cluster and L1 bank.
    L1Refill { num_clusters: usize, l1_banks: usize },
    /// L0 flush gate: L0 flushes return (0), L1 flushes go on (1), accesses
    /// to the L0 tags (2).
    L0FlushGate,
    /// L0 tags: hits (0), misses (1).
    L0Tag,
    /// Ingress without L0: L0 flushes return (0), the rest go on (1).
    BypassL0,
    /// The return path of the request's core within the cluster.
    LocalCore { base_core: usize, cores_per_cluster: usize },
}

pub open spec fn local_core(req: GmemRequest, base_core: usize) -> int {
    if req.core_id >= base_core {
        req.core_id - base_core
    } else {
        0
    }
}

/// Output picked by `route` for `payload`.
pub open spec fn gmem_target(route: GmemRoute, payload: CoreFlowPayload) -> usize {
    match payload {
        CoreFlowPayload::Gmem(req) => match route {
            GmemRoute::L2Tag => if req.l2_hit {
                0
            } else {
                1
            },
            GmemRoute::L2Mshr => if req.l2_writeback {
                0
            } else {
                1
            },
            GmemRoute::L2Bank => req.l2_bank,
            GmemRoute::L1Tag => if req.l1_hit {
                0
            } else {
                1
            },
            GmemRoute::L1Mshr => if req.l1_writeback {
                0
            } else if req.l2_bank < usize::MAX {
                (req.l2_bank + 1) as usize
            } else {
                usize::MAX
            },
            GmemRoute::L1FlushGate { base_core, cores_per_cluster, l1_banks } => if req.kind
                == GmemRequestKind::Load || req.kind == GmemRequestKind::Store {
                req.l1_bank
            } else if req.kind == GmemRequestKind::FlushL1 {
                let local = local_core(req, base_core);
                let local = if local >= cores_per_cluster {
                    if cores_per_cluster >= 1 {
                        cores_per_cluster - 1
                    } else {
                        0
                    }
                } else {
                    local
                };
                if l1_banks + local > usize::MAX {
                    usize::MAX
                } else {
                    (l1_banks + local) as usize
                }
            } else {
                0
            },
            GmemRoute::L1Refill { num_clusters, l1_banks } => if num_clusters == 0 {
                0
            } else {
                let cluster = if req.cluster_id < num_clusters - 1 {
                    req.cluster_id as int
                } else {
                    num_clusters - 1
                };
                let banks = if l1_banks >= 1 {
                    l1_banks as int
                } else {
                    1
                };
                let bank = if req.l1_bank < banks - 1 {
                    req.l1_bank as int
                } else {
                    banks - 1
                };
                if cluster * banks + bank > usize::MAX {
                    usize::MAX
                } else {
                    (cluster * banks + bank) as usize
                }
            },
            GmemRoute::L0FlushGate => if req.kind == GmemRequestKind::FlushL0 {
                0
            } else if req.kind == GmemRequestKind::FlushL1 {
                1
            } else {
                2
            },
            GmemRoute::L0Tag => if req.l0_hit {
                0
            } else {
                1
            },
            GmemRoute::BypassL0 => if req.kind == GmemRequestKind::FlushL0 {
                0
            } else {
                1
            },
            GmemRoute::LocalCore { base_core, cores_per_cluster } => {
                let local = local_core(req, base_core);
                if local >= cores_per_cluster {
                    0
                } else {
                    local as usize
                }
            },
        },
        CoreFlowPayload::Smem(_) => match route {
            GmemRoute::L2Tag | GmemRoute::L2Mshr | GmemRoute::L1Tag | GmemRoute::L0Tag
            | GmemRoute::BypassL0 => 1,
            GmemRoute::L0FlushGate => 2,
            _ => 0,
        },
    }
}

impl RouteFn<CoreFlowPayload> for GmemRoute {
    open spec fn target(&self, payload: &CoreFlowPayload) -> usize {
        gmem_target(*self, *payload)
    }

    fn route(&self, payload: &CoreFlowPayload) -> (r: usize) {
        match payload {
            CoreFlowPayload::Gmem(req) => match *self {
                GmemRoute::L2Tag => if req.l2_hit {
                    0
                } else {
                    1
                },
                GmemRoute::L2Mshr => if req.l2_writeback {
                    0
                } else {
                    1
                },
                GmemRoute::L2Bank => req.l2_bank,
                GmemRoute::L1Tag => if req.l1_hit {
                    0
                } else {
                    1
                },
                GmemRoute::L1Mshr => if req.l1_writeback {
                    0
                } else {
                    req.l2_bank.saturating_add(1)
                },
                GmemRoute::L1FlushGate { base_core, cores_per_cluster, l1_banks } => if req.kind.is_mem() {
                    req.l1_bank
                } else if req.kind.is_flush_l1() {
                    let local = req.core_id.saturating_sub(base_core);
                    let local = if local >= cores_per_cluster {
                        cores_per_cluster.saturating_sub(1)
                    } else {
                        local
                    };
                    l1_banks.saturating_add(local)
                } else {
                    0
                },
                GmemRoute::L1Refill { num_clusters, l1_banks } => if num_clusters == 0 {
                    0
                } else {
                    let cluster = if req.cluster_id < num_clusters - 1 {
                        req.cluster_id
                    } else {
                        num_clusters - 1
                    };
                    let banks = if l1_banks >= 1 {
                        l1_banks
                    } else {
                        1
                    };
                    let bank = if req.l1_bank < banks - 1 {
                        req.l1_bank
                    } else {
                        banks - 1
                    };
                    match cluster.checked_mul(banks) {
                        Some(base) => base.saturating_add(bank),
                        None => usize::MAX,
                    }
                },
                GmemRoute::L0FlushGate => if req.kind.is_flush_l0() {
                    0
                } else if req.kind.is_flush_l1() {
                    1
                } else {
                    2
                },
                GmemRoute::L0Tag => if req.l0_hit {
                    0
                } else {
                    1
                },
                GmemRoute::BypassL0 => if req.kind.is_flush_l0() {
                    0
                } else {
                    1
                },
                GmemRoute::LocalCore { base_core, cores_per_cluster } => {
                    let local = req.core_id.saturating_sub(base_core);
                    if local >= cores_per_cluster {
                        0
                    } else {
                        local
                    }
                },
            },
            CoreFlowPayload::Smem(_) => match *self {
                GmemRoute::L2Tag | GmemRoute::L2Mshr | GmemRoute::L1Tag | GmemRoute::L0Tag
                | GmemRoute::BypassL0 => 1,
                GmemRoute::L0FlushGate => 2,
                _ => 0,
            },
        }
    }
}

/// The graph of the global-memory hierarchy.
pub type GmemGraph = FlowGraph<CoreFlowPayload, ServerNode<CoreFlowPayload>, AcceptAll, GmemRoute>;

/// Entry and return nodes of one core.
#[derive(Debug, Clone, Copy)]
pub struct ClusterCoreNodes {
    pub ingress_node: NodeId,
    pub return_node: NodeId,
}

/// Every id of `v` names a node of a graph of `count` nodes.
pub open spec fn ids_below(v: Seq<NodeId>, count: nat) -> bool {
    forall|i: int| 0 <= i < v.len() ==> #[trigger] v[i] < count
}

/// `a`, `i`, `b`, `j`, `c` written one after the other (numbers in decimal).
fn name2(a: &str, i: usize, b: &str, j: usize, c: &str) -> (r: String)
    ensures
        r@ == a@ + decimal(i as nat) + b@ + decimal(j as nat) + c@,
{
    let first = indexed_name(a, i, b);
    indexed_name(first.as_str(), j, c)
}

/// `a`, `i`, `b`, `j`, `c`, `k`, `d` written one after the other.
fn name3(a: &str, i: usize, b: &str, j: usize, c: &str, k: usize, d: &str) -> (r: String)
    ensures
        r@ == a@ + decimal(i as nat) + b@ + decimal(j as nat) + c@ + decimal(k as nat) + d@,
{
    let first = name2(a, i, b, j, c);
    indexed_name(first.as_str(), k, d)
}

/// A node serving with `config`, labelled `name`.
fn add_server(graph: &mut GmemGraph, name: String, config: ServerConfig) -> (id: NodeId)
    requires
        old(graph).wf(),
        config.valid(),
    ensures
        final(graph).wf(),
        id == old(graph).node_count(),
        final(graph).node_count() == old(graph).node_count() + 1,
        final(graph).node_at(id as int).server_spec().fresh(config),
        old(graph).keeps_nodes(final(graph), old(graph).node_count()),
        old(graph).keeps_routes(final(graph), old(graph).node_count()),
        old(graph).keeps_edges(final(graph), old(graph).edge_count()),
        final(graph).edge_count() == old(graph).edge_count(),
{
    graph.add_node(ServerNode::new(name, TimedServer::new(config)))
}

/// The five nodes of each bank of a cache level.
struct LevelNodes {
    tag: Vec<NodeId>,
    data: Vec<NodeId>,
    mshr: Vec<NodeId>,
    refill: Vec<NodeId>,
    wb: Vec<NodeId>,
}

impl LevelNodes {
    spec fn fits_in(&self, banks: nat, count: nat) -> bool {
        &&& self.tag@.len() == banks && ids_below(self.tag@, count)
        &&& self.data@.len() == banks && ids_below(self.data@, count)
        &&& self.mshr@.len() == banks && ids_below(self.mshr@, count)
        &&& self.refill@.len() == banks && ids_below(self.refill@, count)
        &&& self.wb@.len() == banks && ids_below(self.wb@, count)
    }

    proof fn lemma_grow(&self, banks: nat, a: nat, b: nat)
        requires
            self.fits_in(banks, a),
            a <= b,
        ensures
            self.fits_in(banks, b),
    {
    }
}

proof fn lemma_ids_grow(v: Seq<NodeId>, a: nat, b: nat)
    requires
        ids_below(v, a),
        a <= b,
    ensures
        ids_below(v, b),
{
}

/// Banks of a level (at least one).
pub open spec fn level_banks(level: CacheLevelConfig) -> nat {
    if level.banks >= 1 {
        level.banks as nat
    } else {
        1
    }
}

/// The tag, data, MSHR, refill and writeback nodes of every bank of
/// `level`, labelled with `prefix` (and `cluster`, for an L1).
fn build_cache_level_nodes(graph: &mut GmemGraph, cluster: Option<usize>, level: &CacheLevelConfig) -> (r: LevelNodes)
    requires
        old(graph).wf(),
        level_buildable(*level),
    ensures
        final(graph).wf(),
        final(graph).node_count() >= old(graph).node_count(),
        r.fits_in(level_banks(*level), final(graph).node_count()),
{
    let banks: usize = if level.banks >= 1 {
        level.banks
    } else {
        1
    };
    let mut r = LevelNodes { tag: Vec::new(), data: Vec::new(), mshr: Vec::new(), refill: Vec::new(), wb: Vec::new() };
    let mut bank: usize = 0;
    while bank < banks
        invariant
            graph.wf(),
            graph.node_count() >= old(graph).node_count(),
            level_buildable(*level),
            banks == level_banks(*level),
            bank <= banks,
            r.fits_in(bank as nat, graph.node_count()),
        decreases banks - bank,
    {
        let (tag_name, data_name, mshr_name, refill_name, wb_name) = match cluster {
            Some(c) => (
                name2("cluster", c, "_l1_tag_", bank, ""),
                name2("cluster", c, "_l1_data_", bank, ""),
                name2("cluster", c, "_l1_mshr_", bank, ""),
                name2("cluster", c, "_l1_refill_", bank, ""),
                name2("cluster", c, "_l1_wb_", bank, ""),
            ),
            None => (
                indexed_name("l2_tag_", bank, ""),
                indexed_name("l2_data_", bank, ""),
                indexed_name("l2_mshr_", bank, ""),
                indexed_name("l2_refill_", bank, ""),
                indexed_name("l2_wb_", bank, ""),
            ),
        };
        let t = add_server(graph, tag_name, level.tag);
        let d = add_server(graph, data_name, level.data);
        let m = add_server(graph, mshr_name, level.mshr);
        let f = add_server(graph, refill_name, level.refill);
        let w = add_server(graph, wb_name, level.writeback);
        r.tag.push(t);
        r.data.push(d);
        r.mshr.push(m);
        r.refill.push(f);
        r.wb.push(w);
        bank = bank + 1;
    }
    r
}

/// Join `src` to `dst` through the link `c` describes (or the default).
fn join(graph: &mut GmemGraph, src: NodeId, dst: NodeId, name: String, c: Option<LinkConfig>, default: LinkConfig)
    requires
        old(graph).wf(),
        src < old(graph).node_count(),
        dst < old(graph).node_count(),
        link_ok(c, default),
    ensures
        final(graph).wf(),
        final(graph).node_count() == old(graph).node_count(),
        final(graph).edge_count() == old(graph).edge_count() + 1,
        final(graph).edge_src(old(graph).edge_count() as int) == src,
        final(graph).edge_dst(old(graph).edge_count() as int) == dst,
        final(graph).edge_stat(old(graph).edge_count() as int).is_fresh(),
        old(graph).keeps_edges(final(graph), old(graph).edge_count()),
        old(graph).keeps_nodes(final(graph), old(graph).node_count()),
        old(graph).keeps_routes(final(graph), old(graph).node_count()),
{
    let _ = graph.connect(src, dst, name, link(c, default));
}

/// What `b` keeps of `a` and `c` keeps of `b`, `c` keeps of `a`.
proof fn lemma_keeps_trans(a: &GmemGraph, b: &GmemGraph, c: &GmemGraph)
    requires
        a.edge_count() <= b.edge_count(),
        a.node_count() <= b.node_count(),
        a.keeps_edges(b, a.edge_count()),
        a.keeps_nodes(b, a.node_count()),
        b.keeps_edges(c, b.edge_count()),
        b.keeps_nodes(c, b.node_count()),
    ensures
        a.keeps_edges(c, a.edge_count()),
        a.keeps_nodes(c, a.node_count()),
{
    assert forall|e: int| 0 <= e < a.edge_count() implies #[trigger] c.edge_src(e) == a.edge_src(e)
        && c.edge_dst(e) == a.edge_dst(e) && c.edge_output(e) == a.edge_output(e) && c.edge_stat(e)
        == a.edge_stat(e) by {
        assert(b.edge_src(e) == a.edge_src(e));
        assert(c.edge_src(e) == b.edge_src(e));
        assert(b.edge_dst(e) == a.edge_dst(e));
        assert(c.edge_dst(e) == b.edge_dst(e));
        assert(b.edge_output(e) == a.edge_output(e));
        assert(c.edge_output(e) == b.edge_output(e));
        assert(b.edge_stat(e) == a.edge_stat(e));
        assert(c.edge_stat(e) == b.edge_stat(e));
    }
    assert forall|n: int| 0 <= n < a.node_count() implies #[trigger] c.node_label(n) == a.node_label(n)
        && c.node_at(n) == a.node_at(n) by {
        assert(b.node_label(n) == a.node_label(n));
        assert(c.node_label(n) == b.node_label(n));
        assert(b.node_at(n) == a.node_at(n));
        assert(c.node_at(n) == b.node_at(n));
    }
}

fn route(graph: &mut GmemGraph, node: NodeId, route: GmemRoute)
    requires
        old(graph).wf(),
    ensures
        final(graph).wf(),
        old(graph).same_shape(final(graph)),
        forall|n: int|
            0 <= n < old(graph).node_count() ==> #[trigger] final(graph).node_at(n) == old(graph).node_at(n),
        forall|e: int|
            0 <= e < old(graph).edge_count() ==> #[trigger] final(graph).edge_stat(e) == old(graph).edge_stat(e),
        forall|n: int|
            0 <= n < old(graph).node_count() && n != node ==> #[trigger] final(graph).node_route(n)
                == old(graph).node_route(n),
        node < old(graph).node_count() ==> final(graph).node_route(node as int) == Some(route),
{
    graph.set_route_fn(node, route);
}

/// The shared L2: per bank, tags route hits to the data array and misses to
/// the MSHRs; MSHRs send writebacks through the writeback buffer and the
/// rest to DRAM; DRAM refills the request's bank. Returns the level's nodes
/// and the DRAM node.
fn build_cluster_l2(graph: &mut GmemGraph, config: &GmemFlowConfig) -> (r: (LevelNodes, NodeId))
    requires
        old(graph).wf(),
        config.buildable(),
    ensures
        final(graph).wf(),
        final(graph).node_count() >= old(graph).node_count(),
        r.0.fits_in(level_banks(config.levels@[2]), final(graph).node_count()),
        r.1 < final(graph).node_count(),
{
    let level = config.levels[2];
    assert(level_buildable(config.levels@[2]));
    let nodes = build_cache_level_nodes(graph, None, &level);
    let dram = add_server(graph, "dram".to_owned(), config.nodes.dram);
    let links = config.links;
    let banks = nodes.tag.len();
    let ghost n0 = graph.node_count();
    proof {
        nodes.lemma_grow(level_banks(level), (n0 - 1) as nat, n0);
    }
    let mut bank: usize = 0;
    while bank < banks
        invariant
            graph.wf(),
            graph.node_count() == n0,
            n0 >= old(graph).node_count(),
            config.buildable(),
            links == config.links,
            level == config.levels@[2],
            banks == level_banks(level),
            nodes.fits_in(level_banks(level), graph.node_count()),
            dram < graph.node_count(),
            bank <= banks,
        decreases banks - bank,
    {
        let tag = nodes.tag[bank];
        let data = nodes.data[bank];
        let mshr = nodes.mshr[bank];
        let refill = nodes.refill[bank];
        let wb = nodes.wb[bank];
        join(graph, tag, data, name2("l2_tag_", bank, "->l2_hit_", bank, ""), links.l2_tag_to_l2_hit, links.default);
        join(graph, tag, mshr, name2("l2_tag_", bank, "->l2_mshr_", bank, ""), links.l2_tag_to_l2_mshr, links.default);
        route(graph, tag, GmemRoute::L2Tag);
        join(graph, mshr, wb, name2("l2_mshr_", bank, "->l2_wb_", bank, ""), links.l2_mshr_to_l2_writeback, links.default);
        join(graph, mshr, dram, indexed_name("l2_mshr_", bank, "->dram"), links.l2_mshr_to_dram, links.default);
        route(graph, mshr, GmemRoute::L2Mshr);
        join(graph, wb, dram, indexed_name("l2_wb_", bank, "->dram"), links.l2_writeback_to_dram, links.default);
        join(graph, dram, refill, indexed_name("dram->l2_refill_", bank, ""), links.dram_to_l2_refill, links.default);
        bank = bank + 1;
    }
    route(graph, dram, GmemRoute::L2Bank);
    (nodes, dram)
}

/// The nodes of one cluster's L1 that other parts of the graph join.
struct ClusterL1State {
    l1_flush_gate: NodeId,
    l1_data_nodes: Vec<NodeId>,
    l1_refill_nodes: Vec<NodeId>,
}

impl ClusterL1State {
    spec fn fits_in(&self, banks: nat, count: nat) -> bool {
        &&& self.l1_flush_gate < count
        &&& self.l1_data_nodes@.len() == banks && ids_below(self.l1_data_nodes@, count)
        &&& self.l1_refill_nodes@.len() == banks && ids_below(self.l1_refill_nodes@, count)
    }

    proof fn lemma_grow(&self, banks: nat, a: nat, b: nat)
        requires
            self.fits_in(banks, a),
            a <= b,
        ensures
            self.fits_in(banks, b),
    {
    }
}

/// One cluster's L1: a flush gate feeding every bank's tags; tags route
/// hits to the data array and misses to the MSHRs; MSHRs send writebacks to
/// the writeback buffer and the rest, like the writeback buffer, to the L2
/// tags of the request's L2 bank. The flush gate core_returns L1 flushes to the
/// issuing core (those joins come with the cores).
fn build_cluster_l1(
    graph: &mut GmemGraph,
    config: &GmemFlowConfig,
    cores_per_cluster: usize,
    cluster_id: usize,
    l2_tag_nodes: &Vec<NodeId>,
) -> (r: ClusterL1State)
    requires
        old(graph).wf(),
        config.buildable(),
        ids_below(l2_tag_nodes@, old(graph).node_count()),
    ensures
        final(graph).wf(),
        final(graph).node_count() >= old(graph).node_count(),
        r.fits_in(level_banks(config.levels@[1]), final(graph).node_count()),
{
    let links = config.links;
    let gate = add_server(graph, indexed_name("cluster", cluster_id, "_l1_flush_gate"), config.nodes.l1_flush_gate);
    let level = config.levels[1];
    assert(level_buildable(config.levels@[1]));
    let nodes = build_cache_level_nodes(graph, Some(cluster_id), &level);
    let banks = nodes.tag.len();
    let l2_banks = l2_tag_nodes.len();
    let ghost n0 = graph.node_count();
    proof {
        lemma_ids_grow(l2_tag_nodes@, old(graph).node_count(), n0);
    }
    let mut bank: usize = 0;
    while bank < banks
        invariant
            graph.wf(),
            graph.node_count() == n0,
            n0 >= old(graph).node_count(),
            config.buildable(),
            links == config.links,
            level == config.levels@[1],
            banks == level_banks(level),
            nodes.fits_in(level_banks(level), graph.node_count()),
            gate < graph.node_count(),
            l2_banks == l2_tag_nodes@.len(),
            ids_below(l2_tag_nodes@, graph.node_count()),
            bank <= banks,
        decreases banks - bank,
    {
        let tag = nodes.tag[bank];
        let data = nodes.data[bank];
        let mshr = nodes.mshr[bank];
        let wb = nodes.wb[bank];
        join(graph, gate, tag, name2("cluster", cluster_id, "_l1_flush->l1_tag_", bank, ""), links.l1_flush_to_l1_tag, links.default);
        join(graph, tag, data, name2("cluster", cluster_id, "_l1_tag_", bank, "->l1_hit"), links.l1_tag_to_l1_hit, links.default);
        join(graph, tag, mshr, name2("cluster", cluster_id, "_l1_tag_", bank, "->l1_mshr"), links.l1_tag_to_l1_mshr, links.default);
        route(graph, tag, GmemRoute::L1Tag);
        join(graph, mshr, wb, name2("cluster", cluster_id, "_l1_mshr_", bank, "->l1_wb"), links.l1_mshr_to_l1_writeback, links.default);
        let mut l2_bank: usize = 0;
        while l2_bank < l2_banks
            invariant
                graph.wf(),
                graph.node_count() == n0,
                config.buildable(),
                links == config.links,
                mshr < graph.node_count(),
                wb < graph.node_count(),
                l2_banks == l2_tag_nodes@.len(),
                ids_below(l2_tag_nodes@, graph.node_count()),
                l2_bank <= l2_banks,
            decreases l2_banks - l2_bank,
        {
            let l2_tag = l2_tag_nodes[l2_bank];
            join(graph, mshr, l2_tag, name3("cluster", cluster_id, "_l1_mshr_", bank, "->l2_tag_", l2_bank, ""), links.l1_mshr_to_l2_tag, links.default);
            join(graph, wb, l2_tag, name3("cluster", cluster_id, "_l1_wb_", bank, "->l2_tag_", l2_bank, ""), links.l1_writeback_to_l2_tag, links.default);
            l2_bank = l2_bank + 1;
        }
        route(graph, mshr, GmemRoute::L1Mshr);
        route(graph, wb, GmemRoute::L2Bank);
        bank = bank + 1;
    }
    route(
        graph,
        gate,
        GmemRoute::L1FlushGate {
            base_core: sat_mul_usize(cluster_id, cores_per_cluster),
            cores_per_cluster,
            l1_banks: banks,
        },
    );
    ClusterL1State { l1_flush_gate: gate, l1_data_nodes: nodes.data, l1_refill_nodes: nodes.refill }
}

/// Both the L2 data array (hits) and the L2 refill path of every L2 bank
/// feed the L1 refill of every cluster and L1 bank, routed by the request's
/// cluster and L1 bank.
fn connect_cluster_l2_to_l1_refills(
    graph: &mut GmemGraph,
    links: &GmemLinkConfig,
    l2: &LevelNodes,
    cluster_l1: &Vec<ClusterL1State>,
    l1_banks: usize,
    num_clusters: usize,
)
    requires
        old(graph).wf(),
        links.buildable(),
        l2.fits_in(l2.tag@.len(), old(graph).node_count()),
        cluster_l1@.len() == num_clusters,
        forall|c: int| 0 <= c < num_clusters ==> (#[trigger] cluster_l1@[c]).fits_in(l1_banks as nat, old(graph).node_count()),
    ensures
        final(graph).wf(),
        final(graph).node_count() == old(graph).node_count(),
        final(graph).edge_count() == old(graph).edge_count() + 2 * (l2.data@.len() * num_clusters * l1_banks),
        old(graph).keeps_edges(final(graph), old(graph).edge_count()),
        old(graph).keeps_nodes(final(graph), old(graph).node_count()),
        forall|k: int|
            0 <= k < l2.data@.len() ==> final(graph).node_route(#[trigger] l2.data@[k] as int) == Some(
                GmemRoute::L1Refill { num_clusters, l1_banks },
            ) && final(graph).node_route(l2.refill@[k] as int) == Some(
                GmemRoute::L1Refill { num_clusters, l1_banks },
            ),
{
    let l2_banks = l2.data.len();
    let mut l2_bank: usize = 0;
    while l2_bank < l2_banks
        invariant
            graph.wf(),
            graph.node_count() == old(graph).node_count(),
            links.buildable(),
            l2.fits_in(l2.tag@.len(), graph.node_count()),
            l2_banks == l2.data@.len(),
            cluster_l1@.len() == num_clusters,
            forall|c: int| 0 <= c < num_clusters ==> (#[trigger] cluster_l1@[c]).fits_in(l1_banks as nat, graph.node_count()),
            l2_bank <= l2_banks,
            graph.edge_count() == old(graph).edge_count() + 2 * (l2_bank * num_clusters * l1_banks),
            old(graph).keeps_edges(graph, old(graph).edge_count()),
            old(graph).keeps_nodes(graph, old(graph).node_count()),
            forall|k: int|
                0 <= k < l2_bank ==> graph.node_route(#[trigger] l2.data@[k] as int) == Some(
                    GmemRoute::L1Refill { num_clusters, l1_banks },
                ) && graph.node_route(l2.refill@[k] as int) == Some(
                    GmemRoute::L1Refill { num_clusters, l1_banks },
                ),
        decreases l2_banks - l2_bank,
    {
        let l2_data = l2.data[l2_bank];
        let l2_refill = l2.refill[l2_bank];
        let ghost g0 = *graph;
        let mut c: usize = 0;
        while c < num_clusters
            invariant
                graph.wf(),
                graph.node_count() == old(graph).node_count(),
                links.buildable(),
                l2_data < graph.node_count(),
                l2_refill < graph.node_count(),
                cluster_l1@.len() == num_clusters,
                forall|c: int| 0 <= c < num_clusters ==> (#[trigger] cluster_l1@[c]).fits_in(l1_banks as nat, graph.node_count()),
                c <= num_clusters,
                graph.edge_count() == g0.edge_count() + 2 * (c * l1_banks),
                g0.keeps_edges(graph, g0.edge_count()),
                g0.keeps_nodes(graph, g0.node_count()),
                g0.node_count() == graph.node_count(),
                forall|n: int| 0 <= n < g0.node_count() ==> #[trigger] graph.node_route(n) == g0.node_route(n),
            decreases num_clusters - c,
        {
            let refills = &cluster_l1[c].l1_refill_nodes;
            assert(cluster_l1@[c as int].fits_in(l1_banks as nat, graph.node_count()));
            let ghost g1 = *graph;
            let mut b: usize = 0;
            while b < l1_banks
                invariant
                    graph.wf(),
                    graph.node_count() == old(graph).node_count(),
                    links.buildable(),
                    l2_data < graph.node_count(),
                    l2_refill < graph.node_count(),
                    refills@.len() == l1_banks,
                    ids_below(refills@, graph.node_count()),
                    b <= l1_banks,
                    graph.edge_count() == g1.edge_count() + 2 * b,
                    g1.keeps_edges(graph, g1.edge_count()),
                    g1.keeps_nodes(graph, g1.node_count()),
                    g1.node_count() == graph.node_count(),
                    forall|n: int| 0 <= n < g1.node_count() ==> #[trigger] graph.node_route(n) == g1.node_route(n),
                decreases l1_banks - b,
            {
                let l1_refill = refills[b];
                let ghost g2 = *graph;
                join(graph, l2_data, l1_refill, name3("l2_hit_", l2_bank, "->cluster", c, "_l1_refill_", b, ""), links.l2_hit_to_l1_refill, links.default);
                let ghost g3 = *graph;
                join(graph, l2_refill, l1_refill, name3("l2_refill_", l2_bank, "->cluster", c, "_l1_refill_", b, ""), links.l2_refill_to_l1_refill, links.default);
                proof {
                    lemma_keeps_trans(&g1, &g2, &g3);
                    lemma_keeps_trans(&g1, &g3, graph);
                }
                b = b + 1;
            }
            proof {
                lemma_keeps_trans(&g0, &g1, graph);
                assert(2 * (c * l1_banks) + 2 * l1_banks == 2 * ((c + 1) * l1_banks)) by (nonlinear_arith);
            }
            c = c + 1;
        }
        let ghost g4 = *graph;
        route(graph, l2_data, GmemRoute::L1Refill { num_clusters, l1_banks });
        let ghost g5 = *graph;
        route(graph, l2_refill, GmemRoute::L1Refill { num_clusters, l1_banks });
        proof {
            lemma_keeps_trans(old(graph), &g0, &g4);
            assert forall|e: int|
                #![trigger graph.edge_src(e)]
                #![trigger graph.edge_dst(e)]
                #![trigger graph.edge_output(e)]
                #![trigger graph.edge_stat(e)]
                0 <= e < old(graph).edge_count() implies graph.edge_src(e)
                == old(graph).edge_src(e) && graph.edge_dst(e) == old(graph).edge_dst(e) && graph.edge_output(e)
                == old(graph).edge_output(e) && graph.edge_stat(e) == old(graph).edge_stat(e) by {
                assert(g4.edge_src(e) == old(graph).edge_src(e));
                assert(g5.edge_src(e) == g4.edge_src(e));
                assert(g4.edge_dst(e) == old(graph).edge_dst(e));
                assert(g5.edge_dst(e) == g4.edge_dst(e));
                assert(g4.edge_output(e) == old(graph).edge_output(e));
                assert(g5.edge_output(e) == g4.edge_output(e));
                assert(g4.edge_stat(e) == old(graph).edge_stat(e));
                assert(g5.edge_stat(e) == g4.edge_stat(e));
                assert(graph.edge_src(e) == g5.edge_src(e));
                assert(graph.edge_dst(e) == g5.edge_dst(e));
                assert(graph.edge_output(e) == g5.edge_output(e));
                assert(graph.edge_stat(e) == g5.edge_stat(e));
            }
            assert forall|n: int|
                #![trigger graph.node_label(n)]
                #![trigger graph.node_at(n)]
                0 <= n < old(graph).node_count() implies graph.node_label(n)
                == old(graph).node_label(n) && graph.node_at(n) == old(graph).node_at(n) by {
                assert(g4.node_label(n) == old(graph).node_label(n));
                assert(g5.node_label(n) == g4.node_label(n));
                assert(g4.node_at(n) == old(graph).node_at(n));
                assert(g5.node_at(n) == g4.node_at(n));
                assert(graph.node_label(n) == g5.node_label(n));
                assert(graph.node_at(n) == g5.node_at(n));
            }
            assert forall|k: int| 0 <= k < l2_bank + 1 implies graph.node_route(#[trigger] l2.data@[k] as int)
                == Some(GmemRoute::L1Refill { num_clusters, l1_banks }) && graph.node_route(
                l2.refill@[k] as int,
            ) == Some(GmemRoute::L1Refill { num_clusters, l1_banks }) by {
                if k < l2_bank {
                    assert(g0.node_route(l2.data@[k] as int) == g4.node_route(l2.data@[k] as int));
                    assert(g0.node_route(l2.refill@[k] as int) == g4.node_route(l2.refill@[k] as int));
                }
            }
            assert(2 * (l2_bank * num_clusters * l1_banks) + 2 * (num_clusters * l1_banks) == 2 * ((l2_bank
                + 1) * num_clusters * l1_banks)) by (nonlinear_arith);
        }
        l2_bank = l2_bank + 1;
    }
}

/// Links each cluster gains for its cores: per core, nine with the L0
/// (entry, flush gate, tags, data, MSHRs, return and the cluster's L1 flush
/// gate joined) or three without, and per L1 bank two into each core's
/// return node (hits and refills).
pub open spec fn core_links(l0_enabled: bool, l1_banks: usize, cores_per_cluster: usize) -> int {
    cores_per_cluster * (if l0_enabled {
        9int
    } else {
        3int
    }) + l1_banks * (cores_per_cluster * 2)
}

/// The gates of a core whose entry node is `ingress` route its requests:
/// with the L0, the flush gate (the next node) and the L0 tags (the one
/// after); without it, the entry node itself bypasses the L0.
pub open spec fn core_routed(g: GmemGraph, ingress: NodeId, l0_enabled: bool) -> bool {
    if l0_enabled {
        &&& g.node_route(ingress + 1) == Some(GmemRoute::L0FlushGate)
        &&& g.node_route(ingress + 2) == Some(GmemRoute::L0Tag)
    } else {
        g.node_route(ingress as int) == Some(GmemRoute::BypassL0)
    }
}

/// Edge `e` of `g` runs from `src` to `dst`.
pub open spec fn joins(g: GmemGraph, e: int, src: int, dst: int) -> bool {
    g.edge_src(e) == src && g.edge_dst(e) == dst
}

/// Links a core gains: nine with the L0, three without.
pub open spec fn per_core_links(l0_enabled: bool) -> int {
    if l0_enabled {
        9
    } else {
        3
    }
}

/// The links of a core whose entry node is `ingress`, from edge `e` on.
/// With the L0: entry to flush gate; flush gate to return, to the L1 flush
/// gate and to the L0 tags; tags to data and to MSHRs; data to return;
/// MSHRs to the L1 flush gate; L1 flush gate to return. Without it: entry
/// to return and to the L1 flush gate; L1 flush gate to return.
pub open spec fn core_linked(g: GmemGraph, e: int, ingress: NodeId, l0_enabled: bool) -> bool {
    let n = ingress as int;
    let gate = core_gate(g, e, l0_enabled) as int;
    if l0_enabled {
        &&& joins(g, e, n, n + 1)
        &&& joins(g, e + 1, n + 1, n + 5)
        &&& joins(g, e + 2, n + 1, gate)
        &&& joins(g, e + 3, n + 1, n + 2)
        &&& joins(g, e + 4, n + 2, n + 3)
        &&& joins(g, e + 5, n + 2, n + 4)
        &&& joins(g, e + 6, n + 3, n + 5)
        &&& joins(g, e + 7, n + 4, gate)
        &&& joins(g, e + 8, gate, n + 5)
    } else {
        &&& joins(g, e, n, n + 5)
        &&& joins(g, e + 1, n, gate)
        &&& joins(g, e + 2, gate, n + 5)
    }
}

/// The L1 flush gate the links of a core from edge `e` on lead to.
pub open spec fn core_gate(g: GmemGraph, e: int, l0_enabled: bool) -> NodeId {
    if l0_enabled {
        g.edge_dst(e + 2)
    } else {
        g.edge_dst(e + 1)
    }
}

/// First link of core `i` (cluster by cluster) among those the cores gain
/// from edge `e0` on.
pub open spec fn core_first_edge(e0: int, l0_enabled: bool, l1_banks: usize, cores_per_cluster: usize, i: int) -> int {
    e0 + (i / cores_per_cluster as int) * core_links(l0_enabled, l1_banks, cores_per_cluster) + (i
        % cores_per_cluster as int) * per_core_links(l0_enabled)
}

/// A core whose links start at edge `e` of `a` keeps them in `b`, which
/// keeps the ends of every edge of `a`.
proof fn lemma_linked_kept(a: GmemGraph, b: GmemGraph, e: int, ingress: NodeId, l0_enabled: bool)
    requires
        core_linked(a, e, ingress, l0_enabled),
        0 <= e,
        e + per_core_links(l0_enabled) <= a.edge_count(),
        forall|k: int| 0 <= k < a.edge_count() ==> #[trigger] b.edge_src(k) == a.edge_src(k) && b.edge_dst(k) == a.edge_dst(k),
    ensures
        core_linked(b, e, ingress, l0_enabled),
        core_gate(b, e, l0_enabled) == core_gate(a, e, l0_enabled),
{
    assert(b.edge_src(e) == a.edge_src(e));
    assert(b.edge_src(e + 1) == a.edge_src(e + 1));
    assert(b.edge_src(e + 2) == a.edge_src(e + 2));
    if l0_enabled {
        assert(b.edge_src(e + 3) == a.edge_src(e + 3));
        assert(b.edge_src(e + 4) == a.edge_src(e + 4));
        assert(b.edge_src(e + 5) == a.edge_src(e + 5));
        assert(b.edge_src(e + 6) == a.edge_src(e + 6));
        assert(b.edge_src(e + 7) == a.edge_src(e + 7));
        assert(b.edge_src(e + 8) == a.edge_src(e + 8));
    }
}

/// The six nodes of a core whose entry node is `ingress` are new servers
/// with, in order, the coalescer's, the L0 flush gate's, the L0 tag,
/// data and MSHR configs and the return path's.
pub open spec fn core_configured(g: GmemGraph, ingress: NodeId, config: GmemFlowConfig) -> bool {
    &&& g.node_at(ingress as int).server_spec().fresh(config.nodes.coalescer)
    &&& g.node_at(ingress + 1).server_spec().fresh(config.nodes.l0_flush_gate)
    &&& g.node_at(ingress + 2).server_spec().fresh(config.levels[0].tag)
    &&& g.node_at(ingress + 3).server_spec().fresh(config.levels[0].data)
    &&& g.node_at(ingress + 4).server_spec().fresh(config.levels[0].mshr)
    &&& g.node_at(ingress + 5).server_spec().fresh(config.nodes.return_path)
}

/// The six nodes of core `local` of cluster `c` and their links, leading
/// to the cluster's L1 flush gate `l1_gate`; returns the core's entry and
/// return nodes.
fn build_core(graph: &mut GmemGraph, config: &GmemFlowConfig, l1_gate: NodeId, c: usize, local: usize) -> (r: (NodeId, NodeId))
    requires
        old(graph).wf(),
        config.buildable(),
        l1_gate < old(graph).node_count(),
    ensures
        final(graph).wf(),
        r.0 == old(graph).node_count(),
        r.1 == r.0 + 5,
        final(graph).node_count() == old(graph).node_count() + 6,
        final(graph).edge_count() == old(graph).edge_count() + per_core_links(config.policy.l0_enabled),
        old(graph).keeps_edges(final(graph), old(graph).edge_count()),
        old(graph).keeps_nodes(final(graph), old(graph).node_count()),
        old(graph).keeps_routes(final(graph), old(graph).node_count()),
        core_configured(*final(graph), r.0, *config),
        core_routed(*final(graph), r.0, config.policy.l0_enabled),
        core_linked(*final(graph), old(graph).edge_count() as int, r.0, config.policy.l0_enabled),
        core_gate(*final(graph), old(graph).edge_count() as int, config.policy.l0_enabled) == l1_gate,
{
    let links = config.links;
    let l0 = config.levels[0];
    assert(level_buildable(config.levels@[0]));
    let ghost s0 = *graph;
    let ghost e0 = graph.edge_count() as int;
    let ingress = add_server(graph, name2("cluster", c, "_core", local, "_coalescer"), config.nodes.coalescer);
    let l0_gate = add_server(graph, name2("cluster", c, "_core", local, "_l0_flush_gate"), config.nodes.l0_flush_gate);
    let l0_tag = add_server(graph, name2("cluster", c, "_core", local, "_l0d_tag"), l0.tag);
    let l0_data = add_server(graph, name2("cluster", c, "_core", local, "_l0d_data"), l0.data);
    let l0_mshr = add_server(graph, name2("cluster", c, "_core", local, "_l0d_mshr"), l0.mshr);
    let ret = add_server(graph, name2("cluster", c, "_core", local, "_return"), config.nodes.return_path);
    proof {
        assert(core_configured(*graph, ingress, *config));
        assert(s0.keeps_edges(graph, s0.edge_count()));
        assert forall|n: int| 0 <= n < s0.node_count() implies #[trigger] graph.node_at(n) == s0.node_at(n) && graph.node_label(n) == s0.node_label(n) by {}
        assert forall|n: int| 0 <= n < s0.node_count() implies #[trigger] graph.node_route(n) == s0.node_route(n) by {}
    }
    let ghost g6 = *graph;
    if config.policy.l0_enabled {
        {
            let ghost prev = *graph;
            join(graph, ingress, l0_gate, name2("cluster", c, "_core", local, "_coalescer->l0_flush"), links.coalescer_to_l0_flush, links.default);
            proof {
                lemma_step_kept(&s0, &prev, graph);
                assert(joins(*graph, e0 + 0, ingress as int, l0_gate as int));
                assert(core_configured(*graph, ingress, *config));
            }
        }
        {
            let ghost prev = *graph;
            join(graph, l0_gate, ret, name2("cluster", c, "_core", local, "_l0_flush->return"), links.l0_flush_to_return, links.default);
            proof {
                lemma_step_kept(&s0, &prev, graph);
                assert(prev.edge_src(e0 + 0) == graph.edge_src(e0 + 0));
                assert(joins(*graph, e0 + 0, ingress as int, l0_gate as int));
                assert(joins(*graph, e0 + 1, l0_gate as int, ret as int));
                assert(core_configured(*graph, ingress, *config));
            }
        }
        {
            let ghost prev = *graph;
            join(graph, l0_gate, l1_gate, name2("cluster", c, "_core", local, "_l0_flush->l1_flush"), links.l0_flush_to_l1_flush, links.default);
            proof {
                lemma_step_kept(&s0, &prev, graph);
                assert(prev.edge_src(e0 + 0) == graph.edge_src(e0 + 0));
                assert(joins(*graph, e0 + 0, ingress as int, l0_gate as int));
                assert(prev.edge_src(e0 + 1) == graph.edge_src(e0 + 1));
                assert(joins(*graph, e0 + 1, l0_gate as int, ret as int));
                assert(joins(*graph, e0 + 2, l0_gate as int, l1_gate as int));
                assert(core_configured(*graph, ingress, *config));
            }
        }
        {
            let ghost prev = *graph;
            join(graph, l0_gate, l0_tag, name2("cluster", c, "_core", local, "_l0_flush->l0_tag"), links.l0_flush_to_l0_tag, links.default);
            proof {
                lemma_step_kept(&s0, &prev, graph);
                assert(prev.edge_src(e0 + 0) == graph.edge_src(e0 + 0));
                assert(joins(*graph, e0 + 0, ingress as int, l0_gate as int));
                assert(prev.edge_src(e0 + 1) == graph.edge_src(e0 + 1));
                assert(joins(*graph, e0 + 1, l0_gate as int, ret as int));
                assert(prev.edge_src(e0 + 2) == graph.edge_src(e0 + 2));
                assert(joins(*graph, e0 + 2, l0_gate as int, l1_gate as int));
                assert(joins(*graph, e0 + 3, l0_gate as int, l0_tag as int));
                assert(core_configured(*graph, ingress, *config));
            }
        }
        {
            let ghost prev = *graph;
            route(graph, l0_gate, GmemRoute::L0FlushGate);
            proof {
                lemma_step_kept(&s0, &prev, graph);
                assert(prev.edge_src(e0 + 0) == graph.edge_src(e0 + 0));
                assert(joins(*graph, e0 + 0, ingress as int, l0_gate as int));
                assert(prev.edge_src(e0 + 1) == graph.edge_src(e0 + 1));
                assert(joins(*graph, e0 + 1, l0_gate as int, ret as int));
                assert(prev.edge_src(e0 + 2) == graph.edge_src(e0 + 2));
                assert(joins(*graph, e0 + 2, l0_gate as int, l1_gate as int));
                assert(prev.edge_src(e0 + 3) == graph.edge_src(e0 + 3));
                assert(joins(*graph, e0 + 3, l0_gate as int, l0_tag as int));
                assert(graph.node_route(l0_gate as int) == Some(GmemRoute::L0FlushGate));
                assert(core_configured(*graph, ingress, *config));
            }
        }
        {
            let ghost prev = *graph;
            join(graph, l0_tag, l0_data, name2("cluster", c, "_core", local, "_l0_tag->l0_hit"), links.l0_tag_to_l0_hit, links.default);
            proof {
                lemma_step_kept(&s0, &prev, graph);
                assert(prev.edge_src(e0 + 0) == graph.edge_src(e0 + 0));
                assert(joins(*graph, e0 + 0, ingress as int, l0_gate as int));
                assert(prev.edge_src(e0 + 1) == graph.edge_src(e0 + 1));
                assert(joins(*graph, e0 + 1, l0_gate as int, ret as int));
                assert(prev.edge_src(e0 + 2) == graph.edge_src(e0 + 2));
                assert(joins(*graph, e0 + 2, l0_gate as int, l1_gate as int));
                assert(prev.edge_src(e0 + 3) == graph.edge_src(e0 + 3));
                assert(joins(*graph, e0 + 3, l0_gate as int, l0_tag as int));
                assert(prev.node_route(l0_gate as int) == graph.node_route(l0_gate as int));
                assert(graph.node_route(l0_gate as int) == Some(GmemRoute::L0FlushGate));
                assert(joins(*graph, e0 + 4, l0_tag as int, l0_data as int));
                assert(core_configured(*graph, ingress, *config));
            }
        }
        {
            let ghost prev = *graph;
            join(graph, l0_tag, l0_mshr, name2("cluster", c, "_core", local, "_l0_tag->l0_mshr"), links.l0_tag_to_l0_mshr, links.default);
            proof {
                lemma_step_kept(&s0, &prev, graph);
                assert(prev.edge_src(e0 + 0) == graph.edge_src(e0 + 0));
                assert(joins(*graph, e0 + 0, ingress as int, l0_gate as int));
                assert(prev.edge_src(e0 + 1) == graph.edge_src(e0 + 1));
                assert(joins(*graph, e0 + 1, l0_gate as int, ret as int));
                assert(prev.edge_src(e0 + 2) == graph.edge_src(e0 + 2));
                assert(joins(*graph, e0 + 2, l0_gate as int, l1_gate as int));
                assert(prev.edge_src(e0 + 3) == graph.edge_src(e0 + 3));
                assert(joins(*graph, e0 + 3, l0_gate as int, l0_tag as int));
                assert(prev.node_route(l0_gate as int) == graph.node_route(l0_gate as int));
                assert(graph.node_route(l0_gate as int) == Some(GmemRoute::L0FlushGate));
                assert(prev.edge_src(e0 + 4) == graph.edge_src(e0 + 4));
                assert(joins(*graph, e0 + 4, l0_tag as int, l0_data as int));
                assert(joins(*graph, e0 + 5, l0_tag as int, l0_mshr as int));
                assert(core_configured(*graph, ingress, *config));
            }
        }
        {
            let ghost prev = *graph;
            route(graph, l0_tag, GmemRoute::L0Tag);
            proof {
                lemma_step_kept(&s0, &prev, graph);
                assert(prev.edge_src(e0 + 0) == graph.edge_src(e0 + 0));
                assert(joins(*graph, e0 + 0, ingress as int, l0_gate as int));
                assert(prev.edge_src(e0 + 1) == graph.edge_src(e0 + 1));
                assert(joins(*graph, e0 + 1, l0_gate as int, ret as int));
                assert(prev.edge_src(e0 + 2) == graph.edge_src(e0 + 2));
                assert(joins(*graph, e0 + 2, l0_gate as int, l1_gate as int));
                assert(prev.edge_src(e0 + 3) == graph.edge_src(e0 + 3));
                assert(joins(*graph, e0 + 3, l0_gate as int, l0_tag as int));
                assert(prev.node_route(l0_gate as int) == graph.node_route(l0_gate as int));
                assert(graph.node_route(l0_gate as int) == Some(GmemRoute::L0FlushGate));
                assert(prev.edge_src(e0 + 4) == graph.edge_src(e0 + 4));
                assert(joins(*graph, e0 + 4, l0_tag as int, l0_data as int));
                assert(prev.edge_src(e0 + 5) == graph.edge_src(e0 + 5));
                assert(joins(*graph, e0 + 5, l0_tag as int, l0_mshr as int));
                assert(graph.node_route(l0_tag as int) == Some(GmemRoute::L0Tag));
                assert(core_configured(*graph, ingress, *config));
            }
        }
        {
            let ghost prev = *graph;
            join(graph, l0_data, ret, name2("cluster", c, "_core", local, "_l0_hit->return"), links.l0_hit_to_return, links.default);
            proof {
                lemma_step_kept(&s0, &prev, graph);
                assert(prev.edge_src(e0 + 0) == graph.edge_src(e0 + 0));
                assert(joins(*graph, e0 + 0, ingress as int, l0_gate as int));
                assert(prev.edge_src(e0 + 1) == graph.edge_src(e0 + 1));
                assert(joins(*graph, e0 + 1, l0_gate as int, ret as int));
                assert(prev.edge_src(e0 + 2) == graph.edge_src(e0 + 2));
                assert(joins(*graph, e0 + 2, l0_gate as int, l1_gate as int));
                assert(prev.edge_src(e0 + 3) == graph.edge_src(e0 + 3));
                assert(joins(*graph, e0 + 3, l0_gate as int, l0_tag as int));
                assert(prev.node_route(l0_gate as int) == graph.node_route(l0_gate as int));
                assert(graph.node_route(l0_gate as int) == Some(GmemRoute::L0FlushGate));
                assert(prev.edge_src(e0 + 4) == graph.edge_src(e0 + 4));
                assert(joins(*graph, e0 + 4, l0_tag as int, l0_data as int));
                assert(prev.edge_src(e0 + 5) == graph.edge_src(e0 + 5));
                assert(joins(*graph, e0 + 5, l0_tag as int, l0_mshr as int));
                assert(prev.node_route(l0_tag as int) == graph.node_route(l0_tag as int));
                assert(graph.node_route(l0_tag as int) == Some(GmemRoute::L0Tag));
                assert(joins(*graph, e0 + 6, l0_data as int, ret as int));
                assert(core_configured(*graph, ingress, *config));
            }
        }
        {
            let ghost prev = *graph;
            join(graph, l0_mshr, l1_gate, name2("cluster", c, "_core", local, "_l0_mshr->l1_flush"), links.l0_mshr_to_l1_flush, links.default);
            proof {
                lemma_step_kept(&s0, &prev, graph);
                assert(prev.edge_src(e0 + 0) == graph.edge_src(e0 + 0));
                assert(joins(*graph, e0 + 0, ingress as int, l0_gate as int));
                assert(prev.edge_src(e0 + 1) == graph.edge_src(e0 + 1));
                assert(joins(*graph, e0 + 1, l0_gate as int, ret as int));
                assert(prev.edge_src(e0 + 2) == graph.edge_src(e0 + 2));
                assert(joins(*graph, e0 + 2, l0_gate as int, l1_gate as int));
                assert(prev.edge_src(e0 + 3) == graph.edge_src(e0 + 3));
                assert(joins(*graph, e0 + 3, l0_gate as int, l0_tag as int));
                assert(prev.node_route(l0_gate as int) == graph.node_route(l0_gate as int));
                assert(graph.node_route(l0_gate as int) == Some(GmemRoute::L0FlushGate));
                assert(prev.edge_src(e0 + 4) == graph.edge_src(e0 + 4));
                assert(joins(*graph, e0 + 4, l0_tag as int, l0_data as int));
                assert(prev.edge_src(e0 + 5) == graph.edge_src(e0 + 5));
                assert(joins(*graph, e0 + 5, l0_tag as int, l0_mshr as int));
                assert(prev.node_route(l0_tag as int) == graph.node_route(l0_tag as int));
                assert(graph.node_route(l0_tag as int) == Some(GmemRoute::L0Tag));
                assert(prev.edge_src(e0 + 6) == graph.edge_src(e0 + 6));
                assert(joins(*graph, e0 + 6, l0_data as int, ret as int));
                assert(joins(*graph, e0 + 7, l0_mshr as int, l1_gate as int));
                assert(core_configured(*graph, ingress, *config));
            }
        }
        {
            let ghost prev = *graph;
            join(graph, l1_gate, ret, name2("cluster", c, "_core", local, "_l1_flush->return"), links.l1_flush_to_return, links.default);
            proof {
                lemma_step_kept(&s0, &prev, graph);
                assert(prev.edge_src(e0 + 0) == graph.edge_src(e0 + 0));
                assert(joins(*graph, e0 + 0, ingress as int, l0_gate as int));
                assert(prev.edge_src(e0 + 1) == graph.edge_src(e0 + 1));
                assert(joins(*graph, e0 + 1, l0_gate as int, ret as int));
                assert(prev.edge_src(e0 + 2) == graph.edge_src(e0 + 2));
                assert(joins(*graph, e0 + 2, l0_gate as int, l1_gate as int));
                assert(prev.edge_src(e0 + 3) == graph.edge_src(e0 + 3));
                assert(joins(*graph, e0 + 3, l0_gate as int, l0_tag as int));
                assert(prev.node_route(l0_gate as int) == graph.node_route(l0_gate as int));
                assert(graph.node_route(l0_gate as int) == Some(GmemRoute::L0FlushGate));
                assert(prev.edge_src(e0 + 4) == graph.edge_src(e0 + 4));
                assert(joins(*graph, e0 + 4, l0_tag as int, l0_data as int));
                assert(prev.edge_src(e0 + 5) == graph.edge_src(e0 + 5));
                assert(joins(*graph, e0 + 5, l0_tag as int, l0_mshr as int));
                assert(prev.node_route(l0_tag as int) == graph.node_route(l0_tag as int));
                assert(graph.node_route(l0_tag as int) == Some(GmemRoute::L0Tag));
                assert(prev.edge_src(e0 + 6) == graph.edge_src(e0 + 6));
                assert(joins(*graph, e0 + 6, l0_data as int, ret as int));
                assert(prev.edge_src(e0 + 7) == graph.edge_src(e0 + 7));
                assert(joins(*graph, e0 + 7, l0_mshr as int, l1_gate as int));
                assert(joins(*graph, e0 + 8, l1_gate as int, ret as int));
                assert(core_configured(*graph, ingress, *config));
            }
        }
    } else {
        {
            let ghost prev = *graph;
            join(graph, ingress, ret, name2("cluster", c, "_core", local, "_coalescer->return_flush_l0"), links.coalescer_to_l0_flush, links.default);
            proof {
                lemma_step_kept(&s0, &prev, graph);
                assert(joins(*graph, e0 + 0, ingress as int, ret as int));
                assert(core_configured(*graph, ingress, *config));
            }
        }
        {
            let ghost prev = *graph;
            join(graph, ingress, l1_gate, name2("cluster", c, "_core", local, "_coalescer->l1_flush"), links.coalescer_to_l0_flush, links.default);
            proof {
                lemma_step_kept(&s0, &prev, graph);
                assert(prev.edge_src(e0 + 0) == graph.edge_src(e0 + 0));
                assert(joins(*graph, e0 + 0, ingress as int, ret as int));
                assert(joins(*graph, e0 + 1, ingress as int, l1_gate as int));
                assert(core_configured(*graph, ingress, *config));
            }
        }
        {
            let ghost prev = *graph;
            route(graph, ingress, GmemRoute::BypassL0);
            proof {
                lemma_step_kept(&s0, &prev, graph);
                assert(prev.edge_src(e0 + 0) == graph.edge_src(e0 + 0));
                assert(joins(*graph, e0 + 0, ingress as int, ret as int));
                assert(prev.edge_src(e0 + 1) == graph.edge_src(e0 + 1));
                assert(joins(*graph, e0 + 1, ingress as int, l1_gate as int));
                assert(graph.node_route(ingress as int) == Some(GmemRoute::BypassL0));
                assert(core_configured(*graph, ingress, *config));
            }
        }
        {
            let ghost prev = *graph;
            join(graph, l1_gate, ret, name2("cluster", c, "_core", local, "_l1_flush->return"), links.l1_flush_to_return, links.default);
            proof {
                lemma_step_kept(&s0, &prev, graph);
                assert(prev.edge_src(e0 + 0) == graph.edge_src(e0 + 0));
                assert(joins(*graph, e0 + 0, ingress as int, ret as int));
                assert(prev.edge_src(e0 + 1) == graph.edge_src(e0 + 1));
                assert(joins(*graph, e0 + 1, ingress as int, l1_gate as int));
                assert(prev.node_route(ingress as int) == graph.node_route(ingress as int));
                assert(graph.node_route(ingress as int) == Some(GmemRoute::BypassL0));
                assert(joins(*graph, e0 + 2, l1_gate as int, ret as int));
                assert(core_configured(*graph, ingress, *config));
            }
        }
    }
    proof {
        assert(core_linked(*graph, e0, ingress, config.policy.l0_enabled));
    }
    (ingress, ret)
}

/// What `b` keeps of `a` and one step keeps of `b`, the step keeps of `a`;
/// the step keeps the routers of every node but the one it routes.
proof fn lemma_step_kept(a: &GmemGraph, b: &GmemGraph, c: &GmemGraph)
    requires
        a.edge_count() <= b.edge_count(),
        a.node_count() <= b.node_count(),
        a.keeps_edges(b, a.edge_count()),
        a.keeps_nodes(b, a.node_count()),
        a.keeps_routes(b, a.node_count()),
        b.edge_count() <= c.edge_count(),
        b.node_count() <= c.node_count(),
        forall|e: int| 0 <= e < b.edge_count() ==> #[trigger] c.edge_src(e) == b.edge_src(e) && c.edge_dst(e) == b.edge_dst(e)
            && c.edge_output(e) == b.edge_output(e) && c.edge_stat(e) == b.edge_stat(e),
        forall|n: int| 0 <= n < b.node_count() ==> #[trigger] c.node_at(n) == b.node_at(n) && c.node_label(n) == b.node_label(n),
        forall|n: int| 0 <= n < a.node_count() ==> #[trigger] c.node_route(n) == b.node_route(n),
    ensures
        a.keeps_edges(c, a.edge_count()),
        a.keeps_nodes(c, a.node_count()),
        a.keeps_routes(c, a.node_count()),
{
    assert forall|e: int| 0 <= e < a.edge_count() implies #[trigger] c.edge_src(e) == a.edge_src(e) by {
        assert(b.edge_src(e) == a.edge_src(e));
    }
    assert forall|e: int| 0 <= e < a.edge_count() implies #[trigger] c.edge_dst(e) == a.edge_dst(e) by {
        assert(c.edge_src(e) == b.edge_src(e));
        assert(b.edge_dst(e) == a.edge_dst(e));
    }
    assert forall|e: int| 0 <= e < a.edge_count() implies #[trigger] c.edge_output(e) == a.edge_output(e) by {
        assert(c.edge_src(e) == b.edge_src(e));
        assert(b.edge_output(e) == a.edge_output(e));
    }
    assert forall|e: int| 0 <= e < a.edge_count() implies #[trigger] c.edge_stat(e) == a.edge_stat(e) by {
        assert(c.edge_src(e) == b.edge_src(e));
        assert(b.edge_stat(e) == a.edge_stat(e));
    }
    assert forall|n: int| 0 <= n < a.node_count() implies #[trigger] c.node_label(n) == a.node_label(n) by {
        assert(c.node_at(n) == b.node_at(n));
        assert(b.node_label(n) == a.node_label(n));
    }
    assert forall|n: int| 0 <= n < a.node_count() implies #[trigger] c.node_at(n) == a.node_at(n) by {
        assert(b.node_at(n) == a.node_at(n));
    }
    assert forall|n: int| 0 <= n < a.node_count() implies #[trigger] c.node_route(n) == a.node_route(n) by {
        assert(b.node_route(n) == a.node_route(n));
    }
}


/// Core `i` of `cores` has, from edge `core_first_edge(e0, ..., i)` of
/// `g` on, the links of its node group, leading to the L1 flush gate of its
/// cluster in `l1s`.
spec fn cores_linked(
    g: GmemGraph,
    cores: Seq<ClusterCoreNodes>,
    e0: int,
    l0_enabled: bool,
    l1_banks: usize,
    cores_per_cluster: usize,
    l1s: Seq<ClusterL1State>,
) -> bool {
    forall|i: int|
        0 <= i < cores.len() ==> core_linked(g, core_first_edge(e0, l0_enabled, l1_banks, cores_per_cluster, i), #[trigger] cores[i].ingress_node, l0_enabled)
            && core_gate(g, core_first_edge(e0, l0_enabled, l1_banks, cores_per_cluster, i), l0_enabled) == l1s[i / cores_per_cluster as int].l1_flush_gate
            && 0 <= core_first_edge(e0, l0_enabled, l1_banks, cores_per_cluster, i)
            && core_first_edge(e0, l0_enabled, l1_banks, cores_per_cluster, i) + per_core_links(l0_enabled) <= g.edge_count()
}

/// The links of the core whose entry node is `ingress` stand, in order,
/// among the edges of `g`.
pub open spec fn core_links_present(g: GmemGraph, ingress: NodeId, l0_enabled: bool) -> bool {
    exists|e: int| 0 <= e && e + per_core_links(l0_enabled) <= g.edge_count() && #[trigger] core_linked(g, e, ingress, l0_enabled)
}

/// Per core: a coalescer (ingress), the L0 flush gate and L0 tag, data and
/// MSHR nodes, and a return node. With L0: the coalescer feeds the flush
/// gate, which core_returns L0 flushes, passes L1 flushes to the cluster's L1
/// flush gate and sends accesses to the L0 tags; L0 hits return, misses go
/// through the MSHRs to the L1 flush gate. Without L0 the coalescer core_returns
/// L0 flushes and sends the rest to the L1 flush gate. The L1 data arrays
/// and refills of the cluster return to the request's core.
#[verifier::spinoff_prover]
#[verifier::rlimit(100)]
fn build_cluster_core_nodes(
    graph: &mut GmemGraph,
    config: &GmemFlowConfig,
    cluster_l1: &Vec<ClusterL1State>,
    l1_banks: usize,
    num_clusters: usize,
    cores_per_cluster: usize,
) -> (r: Vec<ClusterCoreNodes>)
    requires
        old(graph).wf(),
        config.buildable(),
        cluster_l1@.len() == num_clusters,
        forall|c: int| 0 <= c < num_clusters ==> (#[trigger] cluster_l1@[c]).fits_in(l1_banks as nat, old(graph).node_count()),
    ensures
        final(graph).wf(),
        forall|i: int| 0 <= i < r@.len() ==> (#[trigger] r@[i]).ingress_node < final(graph).node_count()
            && r@[i].return_node < final(graph).node_count(),
        r@.len() == num_clusters * cores_per_cluster,
        final(graph).node_count() == old(graph).node_count() + 6 * r@.len(),
        forall|i: int|
            0 <= i < r@.len() ==> old(graph).node_count() <= (#[trigger] r@[i]).ingress_node
                && r@[i].return_node == r@[i].ingress_node + 5,
        forall|i: int, j: int| 0 <= i < j < r@.len() ==> #[trigger] r@[i].return_node < #[trigger] r@[j].ingress_node,
        forall|i: int| 0 <= i < r@.len() ==> core_routed(*final(graph), #[trigger] r@[i].ingress_node, config.policy.l0_enabled),
        forall|i: int| 0 <= i < r@.len() ==> core_configured(*final(graph), #[trigger] r@[i].ingress_node, *config),
        cores_linked(*final(graph), r@, old(graph).edge_count() as int, config.policy.l0_enabled, l1_banks, cores_per_cluster, cluster_l1@),
        final(graph).edge_count() == old(graph).edge_count() + num_clusters * core_links(
            config.policy.l0_enabled,
            l1_banks,
            cores_per_cluster,
        ),
{
    let links = config.links;
    let l0 = config.levels[0];
    assert(level_buildable(config.levels@[0]));
    let l0_enabled = config.policy.l0_enabled;
    let ghost n_start = graph.node_count();
    let ghost e_start = graph.edge_count();
    let ghost per_core: int = if l0_enabled {
        9
    } else {
        3
    };
    let ghost x = core_links(l0_enabled, l1_banks, cores_per_cluster);
    let mut core_nodes: Vec<ClusterCoreNodes> = Vec::new();
    let mut c: usize = 0;
    while c < num_clusters
        invariant
            graph.wf(),
            graph.node_count() >= n_start,
            n_start == old(graph).node_count(),
            config.buildable(),
            links == config.links,
            level_buildable(l0),
            l0 == config.levels@[0],
            cluster_l1@.len() == num_clusters,
            forall|k: int| 0 <= k < num_clusters ==> (#[trigger] cluster_l1@[k]).fits_in(l1_banks as nat, n_start),
            forall|i: int| 0 <= i < core_nodes@.len() ==> (#[trigger] core_nodes@[i]).ingress_node < graph.node_count()
                && core_nodes@[i].return_node < graph.node_count(),
            forall|i: int| 0 <= i < core_nodes@.len() ==> core_routed(*graph, #[trigger] core_nodes@[i].ingress_node, l0_enabled),
                forall|i: int| 0 <= i < core_nodes@.len() ==> core_configured(*graph, #[trigger] core_nodes@[i].ingress_node, *config),
                cores_linked(*graph, core_nodes@, e_start as int, l0_enabled, l1_banks, cores_per_cluster, cluster_l1@),
            l0_enabled == config.policy.l0_enabled,
            graph.edge_count() == e_start + c * x,
            x == core_links(l0_enabled, l1_banks, cores_per_cluster),
            per_core == (if l0_enabled {
                9int
            } else {
                3int
            }),
            e_start == old(graph).edge_count(),
            c <= num_clusters,
            core_nodes@.len() == c * cores_per_cluster,
            graph.node_count() == n_start + 6 * core_nodes@.len(),
            forall|i: int|
                0 <= i < core_nodes@.len() ==> n_start <= (#[trigger] core_nodes@[i]).ingress_node
                    && core_nodes@[i].return_node == core_nodes@[i].ingress_node + 5,
            forall|i: int, j: int|
                0 <= i < j < core_nodes@.len() ==> #[trigger] core_nodes@[i].return_node
                    < #[trigger] core_nodes@[j].ingress_node,
        decreases num_clusters - c,
    {
        let state = &cluster_l1[c];
        assert(state.fits_in(l1_banks as nat, n_start));
        let l1_gate = state.l1_flush_gate;
        let mut core_returns: Vec<NodeId> = Vec::new();
        let mut local: usize = 0;
        while local < cores_per_cluster
            invariant
                graph.wf(),
                graph.node_count() >= n_start,
                config.buildable(),
                links == config.links,
                level_buildable(l0),
                l0 == config.levels@[0],
                l1_gate < n_start,
                l1_gate == cluster_l1@[c as int].l1_flush_gate,
                state.fits_in(l1_banks as nat, n_start),
                cluster_l1@.len() == num_clusters,
                forall|k: int| 0 <= k < num_clusters ==> (#[trigger] cluster_l1@[k]).fits_in(l1_banks as nat, n_start),
                forall|i: int| 0 <= i < core_nodes@.len() ==> (#[trigger] core_nodes@[i]).ingress_node < graph.node_count()
                    && core_nodes@[i].return_node < graph.node_count(),
                forall|i: int| 0 <= i < core_nodes@.len() ==> core_routed(*graph, #[trigger] core_nodes@[i].ingress_node, l0_enabled),
                forall|i: int| 0 <= i < core_nodes@.len() ==> core_configured(*graph, #[trigger] core_nodes@[i].ingress_node, *config),
                cores_linked(*graph, core_nodes@, e_start as int, l0_enabled, l1_banks, cores_per_cluster, cluster_l1@),
                ids_below(core_returns@, graph.node_count()),
                core_returns@.len() == local,
                local <= cores_per_cluster,
                c < num_clusters,
                n_start == old(graph).node_count(),
                core_nodes@.len() == c * cores_per_cluster + local,
                graph.edge_count() == e_start + c * x + local * per_core,
                per_core == (if l0_enabled {
                    9int
                } else {
                    3int
                }),
                l0_enabled == config.policy.l0_enabled,
                x == core_links(l0_enabled, l1_banks, cores_per_cluster),
                graph.node_count() == n_start + 6 * core_nodes@.len(),
                forall|i: int|
                    0 <= i < core_nodes@.len() ==> n_start <= (#[trigger] core_nodes@[i]).ingress_node
                        && core_nodes@[i].return_node == core_nodes@[i].ingress_node + 5,
                forall|i: int, j: int|
                    0 <= i < j < core_nodes@.len() ==> #[trigger] core_nodes@[i].return_node
                        < #[trigger] core_nodes@[j].ingress_node,
            decreases cores_per_cluster - local,
        {
            let ghost gs = *graph;
            let (ingress, ret) = build_core(graph, config, l1_gate, c, local);
            proof {
                assert forall|k: int| 0 <= k < gs.edge_count() implies #[trigger] graph.edge_src(k) == gs.edge_src(k) && graph.edge_dst(k) == gs.edge_dst(k) by {}
                assert forall|i: int| 0 <= i < core_nodes@.len() implies core_routed(*graph, #[trigger] core_nodes@[i].ingress_node, l0_enabled)
                    && core_configured(*graph, core_nodes@[i].ingress_node, *config) by {
                    let x = core_nodes@[i].ingress_node;
                    assert(core_routed(gs, x, l0_enabled));
                    assert(core_configured(gs, x, *config));
                    assert(graph.node_route(x as int) == gs.node_route(x as int));
                    assert(graph.node_route(x + 1) == gs.node_route(x + 1));
                    assert(graph.node_route(x + 2) == gs.node_route(x + 2));
                    assert(graph.node_at(x as int) == gs.node_at(x as int));
                    assert(graph.node_at(x + 1) == gs.node_at(x + 1));
                    assert(graph.node_at(x + 2) == gs.node_at(x + 2));
                    assert(graph.node_at(x + 3) == gs.node_at(x + 3));
                    assert(graph.node_at(x + 4) == gs.node_at(x + 4));
                    assert(graph.node_at(x + 5) == gs.node_at(x + 5));
                }
                assert forall|k: int| 0 <= k < gs.edge_count() implies #[trigger] graph.edge_src(k) == gs.edge_src(k) && graph.edge_dst(k) == gs.edge_dst(k) by {}
                assert forall|i: int| 0 <= i < core_nodes@.len() implies core_linked(*graph, core_first_edge(e_start as int, l0_enabled, l1_banks, cores_per_cluster, i), #[trigger] core_nodes@[i].ingress_node, l0_enabled)
                    && core_gate(*graph, core_first_edge(e_start as int, l0_enabled, l1_banks, cores_per_cluster, i), l0_enabled) == cluster_l1@[i / cores_per_cluster as int].l1_flush_gate
                    && 0 <= core_first_edge(e_start as int, l0_enabled, l1_banks, cores_per_cluster, i)
                    && core_first_edge(e_start as int, l0_enabled, l1_banks, cores_per_cluster, i) + per_core_links(l0_enabled) <= graph.edge_count() by {
                    lemma_linked_kept(gs, *graph, core_first_edge(e_start as int, l0_enabled, l1_banks, cores_per_cluster, i), core_nodes@[i].ingress_node, l0_enabled);
                }
                assert forall|i: int| 0 <= i < core_nodes@.len() implies core_linked(*graph, core_first_edge(e_start as int, l0_enabled, l1_banks, cores_per_cluster, i), #[trigger] core_nodes@[i].ingress_node, l0_enabled)
                    && core_gate(*graph, core_first_edge(e_start as int, l0_enabled, l1_banks, cores_per_cluster, i), l0_enabled) == cluster_l1@[i / cores_per_cluster as int].l1_flush_gate
                    && 0 <= core_first_edge(e_start as int, l0_enabled, l1_banks, cores_per_cluster, i)
                    && core_first_edge(e_start as int, l0_enabled, l1_banks, cores_per_cluster, i) + per_core_links(l0_enabled) <= graph.edge_count() by {
                    lemma_linked_kept(gs, *graph, core_first_edge(e_start as int, l0_enabled, l1_banks, cores_per_cluster, i), core_nodes@[i].ingress_node, l0_enabled);
                }
                let i = core_nodes@.len() as int;
                assert(i == c * cores_per_cluster + local);
                vstd::arithmetic::div_mod::lemma_fundamental_div_mod_converse(i, cores_per_cluster as int, c as int, local as int);
                assert(core_first_edge(e_start as int, l0_enabled, l1_banks, cores_per_cluster, i) == gs.edge_count());
            }
            core_returns.push(ret);
            core_nodes.push(ClusterCoreNodes { ingress_node: ingress, return_node: ret });
            local = local + 1;
        }
        let base_core = sat_mul_usize(c, cores_per_cluster);
        let ghost n1 = graph.node_count();
        let mut b: usize = 0;
        while b < l1_banks
            invariant
                graph.wf(),
                graph.node_count() == n1,
                n1 >= n_start,
                config.buildable(),
                links == config.links,
                level_buildable(l0),
                state.fits_in(l1_banks as nat, n_start),
                cluster_l1@.len() == num_clusters,
                forall|k: int| 0 <= k < num_clusters ==> (#[trigger] cluster_l1@[k]).fits_in(l1_banks as nat, n_start),
                forall|i: int| 0 <= i < core_nodes@.len() ==> (#[trigger] core_nodes@[i]).ingress_node < graph.node_count()
                    && core_nodes@[i].return_node < graph.node_count(),
                forall|i: int| 0 <= i < core_nodes@.len() ==> core_routed(*graph, #[trigger] core_nodes@[i].ingress_node, l0_enabled),
                forall|i: int| 0 <= i < core_nodes@.len() ==> core_configured(*graph, #[trigger] core_nodes@[i].ingress_node, *config),
                cores_linked(*graph, core_nodes@, e_start as int, l0_enabled, l1_banks, cores_per_cluster, cluster_l1@),
                ids_below(core_returns@, graph.node_count()),
                core_returns@.len() == cores_per_cluster,
                b <= l1_banks,
                c < num_clusters,
                n_start == old(graph).node_count(),
                core_nodes@.len() == c * cores_per_cluster + cores_per_cluster,
                graph.edge_count() == e_start + c * x + cores_per_cluster * per_core + b * (cores_per_cluster * 2),
                graph.node_count() == n_start + 6 * core_nodes@.len(),
                forall|i: int|
                    0 <= i < core_nodes@.len() ==> n_start <= (#[trigger] core_nodes@[i]).ingress_node
                        && core_nodes@[i].return_node == core_nodes@[i].ingress_node + 5,
                forall|i: int, j: int|
                    0 <= i < j < core_nodes@.len() ==> #[trigger] core_nodes@[i].return_node
                        < #[trigger] core_nodes@[j].ingress_node,
            decreases l1_banks - b,
        {
            let l1_data = state.l1_data_nodes[b];
            let l1_refill = state.l1_refill_nodes[b];
            let mut local: usize = 0;
            while local < cores_per_cluster
                invariant
                    graph.wf(),
                    graph.node_count() == n1,
                    config.buildable(),
                    links == config.links,
                    l1_data < graph.node_count(),
                    l1_refill < graph.node_count(),
                    ids_below(core_returns@, graph.node_count()),
                    core_returns@.len() == cores_per_cluster,
                    local <= cores_per_cluster,
                    forall|i: int| 0 <= i < core_nodes@.len() ==> (#[trigger] core_nodes@[i]).ingress_node < graph.node_count()
                        && core_nodes@[i].return_node < graph.node_count(),
                    forall|i: int| 0 <= i < core_nodes@.len() ==> core_routed(*graph, #[trigger] core_nodes@[i].ingress_node, l0_enabled),
                forall|i: int| 0 <= i < core_nodes@.len() ==> core_configured(*graph, #[trigger] core_nodes@[i].ingress_node, *config),
                cores_linked(*graph, core_nodes@, e_start as int, l0_enabled, l1_banks, cores_per_cluster, cluster_l1@),
                    forall|i: int|
                        0 <= i < core_nodes@.len() ==> n_start <= (#[trigger] core_nodes@[i]).ingress_node
                            && core_nodes@[i].return_node == core_nodes@[i].ingress_node + 5,
                    n_start == old(graph).node_count(),
                    l1_data < n_start,
                    l1_refill < n_start,
                    graph.edge_count() == e_start + c * x + cores_per_cluster * per_core + b * (cores_per_cluster * 2)
                        + local * 2,
                decreases cores_per_cluster - local,
            {
                let ret = core_returns[local];
                let ghost gs = *graph;
                join(graph, l1_data, ret, name3("cluster", c, "_core", local, "_l1_hit_", b, "->return"), links.l1_hit_to_return, links.default);
                join(graph, l1_refill, ret, name3("cluster", c, "_core", local, "_l1_refill_", b, "->return"), links.l1_refill_to_return, links.default);
                proof {
                    assert forall|i: int| 0 <= i < core_nodes@.len() implies core_routed(*graph, #[trigger] core_nodes@[i].ingress_node, l0_enabled) by {
                        let x = core_nodes@[i].ingress_node;
                        assert(core_routed(gs, x, l0_enabled));
                        assert(graph.node_route(x as int) == gs.node_route(x as int));
                        assert(graph.node_route(x + 1) == gs.node_route(x + 1));
                        assert(graph.node_route(x + 2) == gs.node_route(x + 2));
                    }
                }
                local = local + 1;
            }
            let ghost gs = *graph;
            route(graph, l1_data, GmemRoute::LocalCore { base_core, cores_per_cluster });
            route(graph, l1_refill, GmemRoute::LocalCore { base_core, cores_per_cluster });
            proof {
                assert forall|k: int| 0 <= k < gs.edge_count() implies #[trigger] graph.edge_src(k) == gs.edge_src(k) && graph.edge_dst(k) == gs.edge_dst(k) by {}
                assert forall|i: int| 0 <= i < core_nodes@.len() implies core_linked(*graph, core_first_edge(e_start as int, l0_enabled, l1_banks, cores_per_cluster, i), #[trigger] core_nodes@[i].ingress_node, l0_enabled)
                    && core_gate(*graph, core_first_edge(e_start as int, l0_enabled, l1_banks, cores_per_cluster, i), l0_enabled) == cluster_l1@[i / cores_per_cluster as int].l1_flush_gate
                    && 0 <= core_first_edge(e_start as int, l0_enabled, l1_banks, cores_per_cluster, i)
                    && core_first_edge(e_start as int, l0_enabled, l1_banks, cores_per_cluster, i) + per_core_links(l0_enabled) <= graph.edge_count() by {
                    lemma_linked_kept(gs, *graph, core_first_edge(e_start as int, l0_enabled, l1_banks, cores_per_cluster, i), core_nodes@[i].ingress_node, l0_enabled);
                }
                assert forall|i: int| 0 <= i < core_nodes@.len() implies core_routed(*graph, #[trigger] core_nodes@[i].ingress_node, l0_enabled) by {
                    let x = core_nodes@[i].ingress_node;
                    assert(core_routed(gs, x, l0_enabled));
                    assert(graph.node_route(x as int) == gs.node_route(x as int));
                    assert(graph.node_route(x + 1) == gs.node_route(x + 1));
                    assert(graph.node_route(x + 2) == gs.node_route(x + 2));
                }
                assert forall|i: int| 0 <= i < core_nodes@.len() implies core_configured(*graph, #[trigger] core_nodes@[i].ingress_node, *config) by {
                    let x = core_nodes@[i].ingress_node;
                    assert(core_configured(gs, x, *config));
                    assert(graph.node_at(x as int) == gs.node_at(x as int));
                    assert(graph.node_at(x + 1) == gs.node_at(x + 1));
                    assert(graph.node_at(x + 2) == gs.node_at(x + 2));
                    assert(graph.node_at(x + 3) == gs.node_at(x + 3));
                    assert(graph.node_at(x + 4) == gs.node_at(x + 4));
                    assert(graph.node_at(x + 5) == gs.node_at(x + 5));
                }
                assert forall|k: int| 0 <= k < gs.edge_count() implies #[trigger] graph.edge_src(k) == gs.edge_src(k) && graph.edge_dst(k) == gs.edge_dst(k) by {}
                assert forall|i: int| 0 <= i < core_nodes@.len() implies core_linked(*graph, core_first_edge(e_start as int, l0_enabled, l1_banks, cores_per_cluster, i), #[trigger] core_nodes@[i].ingress_node, l0_enabled)
                    && core_gate(*graph, core_first_edge(e_start as int, l0_enabled, l1_banks, cores_per_cluster, i), l0_enabled) == cluster_l1@[i / cores_per_cluster as int].l1_flush_gate
                    && 0 <= core_first_edge(e_start as int, l0_enabled, l1_banks, cores_per_cluster, i)
                    && core_first_edge(e_start as int, l0_enabled, l1_banks, cores_per_cluster, i) + per_core_links(l0_enabled) <= graph.edge_count() by {
                    lemma_linked_kept(gs, *graph, core_first_edge(e_start as int, l0_enabled, l1_banks, cores_per_cluster, i), core_nodes@[i].ingress_node, l0_enabled);
                }
            }
            proof {
                assert(b * (cores_per_cluster * 2) + cores_per_cluster * 2 == (b + 1) * (cores_per_cluster * 2)) by (nonlinear_arith);
            }
            b = b + 1;
        }
        proof {
            assert(c * cores_per_cluster + cores_per_cluster == (c + 1) * cores_per_cluster) by (nonlinear_arith);
            assert(c * x + cores_per_cluster * per_core + l1_banks * (cores_per_cluster * 2) == (c + 1) * x) by (nonlinear_arith)
                requires
                    x == cores_per_cluster * per_core + l1_banks * (cores_per_cluster * 2);
        }
        c = c + 1;
    }
    core_nodes
}

/// The global-memory graph of `num_clusters` clusters of
/// `cores_per_cluster` cores sharing one L2, and each core's entry and
/// return nodes, cluster by cluster.
pub fn build_cluster_graph(config: &GmemFlowConfig, num_clusters: usize, cores_per_cluster: usize) -> (r: (
    GmemGraph,
    Vec<ClusterCoreNodes>,
))
    requires
        config.buildable(),
    ensures
        r.0.wf(),
        forall|i: int| 0 <= i < r.1@.len() ==> (#[trigger] r.1@[i]).ingress_node < r.0.node_count()
            && r.1@[i].return_node < r.0.node_count(),
        r.1@.len() == num_clusters * cores_per_cluster,
        forall|i: int| 0 <= i < r.1@.len() ==> r.1@[i].return_node == (#[trigger] r.1@[i]).ingress_node + 5,
        forall|i: int, j: int| 0 <= i < j < r.1@.len() ==> #[trigger] r.1@[i].return_node < #[trigger] r.1@[j].return_node,
        forall|i: int| 0 <= i < r.1@.len() ==> core_configured(r.0, #[trigger] r.1@[i].ingress_node, *config),
        forall|i: int| 0 <= i < r.1@.len() ==> core_routed(r.0, #[trigger] r.1@[i].ingress_node, config.policy.l0_enabled),
        forall|i: int| 0 <= i < r.1@.len() ==> core_links_present(r.0, #[trigger] r.1@[i].ingress_node, config.policy.l0_enabled),
{
    let mut graph: GmemGraph = FlowGraph::new();
    let (l2, _dram) = build_cluster_l2(&mut graph, config);
    let ghost n_l2 = graph.node_count();
    let mut cluster_l1: Vec<ClusterL1State> = Vec::new();
    let l1_banks: usize = if config.levels[1].banks >= 1 {
        config.levels[1].banks
    } else {
        1
    };
    let mut c: usize = 0;
    while c < num_clusters
        invariant
            graph.wf(),
            config.buildable(),
            l1_banks == level_banks(config.levels@[1]),
            graph.node_count() >= n_l2,
            l2.fits_in(l2.tag@.len(), n_l2),
            cluster_l1@.len() == c,
            forall|k: int| 0 <= k < c ==> (#[trigger] cluster_l1@[k]).fits_in(l1_banks as nat, graph.node_count()),
            c <= num_clusters,
        decreases num_clusters - c,
    {
        proof {
            lemma_ids_grow(l2.tag@, n_l2, graph.node_count());
        }
        let ghost before = graph.node_count();
        let state = build_cluster_l1(&mut graph, config, cores_per_cluster, c, &l2.tag);
        proof {
            assert forall|k: int| 0 <= k < c implies (#[trigger] cluster_l1@[k]).fits_in(l1_banks as nat, graph.node_count()) by {
                cluster_l1@[k].lemma_grow(l1_banks as nat, before, graph.node_count());
            }
        }
        cluster_l1.push(state);
        c = c + 1;
    }
    proof {
        l2.lemma_grow(l2.tag@.len(), n_l2, graph.node_count());
    }
    connect_cluster_l2_to_l1_refills(&mut graph, &config.links, &l2, &cluster_l1, l1_banks, num_clusters);
    let ghost e0 = graph.edge_count() as int;
    let cores = build_cluster_core_nodes(&mut graph, config, &cluster_l1, l1_banks, num_clusters, cores_per_cluster);
    proof {
        assert forall|i: int| 0 <= i < cores@.len() implies core_links_present(graph, #[trigger] cores@[i].ingress_node, config.policy.l0_enabled) by {
            let e = core_first_edge(e0, config.policy.l0_enabled, l1_banks, cores_per_cluster, i);
            assert(core_linked(graph, e, cores@[i].ingress_node, config.policy.l0_enabled));
        }
    }
    (graph, cores)
}

} // verus!
