//! Global-memory requests and the records that accompany them.

use crate::timeflow::types::CoreFlowPayload;
use crate::timeq::{Cycle, ServiceRequest, Ticket};
use vstd::prelude::*;

verus! {

#[derive(Debug, Clone, Copy, PartialEq, Eq, Structural)]
pub enum GmemRequestKind {
    Load,
    Store,
    FlushL0,
    FlushL1,
}

impl GmemRequestKind {
    /// A data access (load or store), as opposed to a cache flush.
    pub fn is_mem(self) -> (r: bool)
        ensures
            r == (self == GmemRequestKind::Load || self == GmemRequestKind::Store),
    {
        match self {
            GmemRequestKind::Load | GmemRequestKind::Store => true,
            _ => false,
        }
    }

    pub fn is_flush_l0(self) -> (r: bool)
        ensures
            r == (self == GmemRequestKind::FlushL0),
    {
        match self {
            GmemRequestKind::FlushL0 => true,
            _ => false,
        }
    }

    pub fn is_flush_l1(self) -> (r: bool)
        ensures
            r == (self == GmemRequestKind::FlushL1),
    {
        match self {
            GmemRequestKind::FlushL1 => true,
            _ => false,
        }
    }
}

#[derive(Debug, Clone)]
pub struct GmemRequest {
    pub id: u64,
    pub core_id: usize,
    pub cluster_id: usize,
    pub warp: usize,
    pub addr: u64,
    pub line_addr: u64,
    pub lane_addrs: Option<Vec<u64>>,
    pub coalesced_lines: Option<Vec<u64>>,
    pub bytes: u32,
    pub active_lanes: u32,
    pub is_load: bool,
    pub stall_on_completion: bool,
    pub kind: GmemRequestKind,
    pub l0_hit: bool,
    pub l1_hit: bool,
    pub l2_hit: bool,
    pub l1_writeback: bool,
    pub l2_writeback: bool,
    pub l1_bank: usize,
    pub l2_bank: usize,
}

impl GmemRequest {
    /// The cache-outcome and placement fields are all at their initial value.
    pub open spec fn fresh(self) -> bool {
        &&& self.id == 0
        &&& self.core_id == 0
        &&& self.cluster_id == 0
        &&& self.addr == 0
        &&& self.line_addr == 0
        &&& self.lane_addrs is None
        &&& self.coalesced_lines is None
        &&& !self.l0_hit
        &&& !self.l1_hit
        &&& !self.l2_hit
        &&& !self.l1_writeback
        &&& !self.l2_writeback
        &&& self.l1_bank == 0
        &&& self.l2_bank == 0
    }

    /// A load (`is_load`) or store; loads stall their warp until completion.
    pub fn new(warp: usize, bytes: u32, active_lanes: u32, is_load: bool) -> (r: Self)
        ensures
            r.fresh(),
            r.warp == warp,
            r.bytes == bytes,
            r.active_lanes == active_lanes,
            r.is_load == is_load,
            r.stall_on_completion == is_load,
            r.kind == (if is_load {
                GmemRequestKind::Load
            } else {
                GmemRequestKind::Store
            }),
    {
        let kind = if is_load {
            GmemRequestKind::Load
        } else {
            GmemRequestKind::Store
        };
        Self {
            id: 0,
            core_id: 0,
            cluster_id: 0,
            warp,
            addr: 0,
            line_addr: 0,
            lane_addrs: None,
            coalesced_lines: None,
            bytes,
            active_lanes,
            is_load,
            stall_on_completion: is_load,
            kind,
            l0_hit: false,
            l1_hit: false,
            l2_hit: false,
            l1_writeback: false,
            l2_writeback: false,
            l1_bank: 0,
            l2_bank: 0,
        }
    }

    /// A flush of the per-core L0 cache.
    pub fn new_flush_l0(warp: usize, bytes: u32) -> (r: Self)
        ensures
            r.fresh(),
            r.warp == warp,
            r.bytes == bytes,
            r.active_lanes == 0,
            !r.is_load,
            r.stall_on_completion,
            r.kind == GmemRequestKind::FlushL0,
    {
        Self {
            id: 0,
            core_id: 0,
            cluster_id: 0,
            warp,
            addr: 0,
            line_addr: 0,
            lane_addrs: None,
            coalesced_lines: None,
            bytes,
            active_lanes: 0,
            is_load: false,
            stall_on_completion: true,
            kind: GmemRequestKind::FlushL0,
            l0_hit: false,
            l1_hit: false,
            l2_hit: false,
            l1_writeback: false,
            l2_writeback: false,
            l1_bank: 0,
            l2_bank: 0,
        }
    }

    /// A flush of the per-cluster L1 cache.
    pub fn new_flush_l1(warp: usize, bytes: u32) -> (r: Self)
        ensures
            r.fresh(),
            r.warp == warp,
            r.bytes == bytes,
            r.active_lanes == 0,
            !r.is_load,
            r.stall_on_completion,
            r.kind == GmemRequestKind::FlushL1,
    {
        Self {
            id: 0,
            core_id: 0,
            cluster_id: 0,
            warp,
            addr: 0,
            line_addr: 0,
            lane_addrs: None,
            coalesced_lines: None,
            bytes,
            active_lanes: 0,
            is_load: false,
            stall_on_completion: true,
            kind: GmemRequestKind::FlushL1,
            l0_hit: false,
            l1_hit: false,
            l2_hit: false,
            l1_writeback: false,
            l2_writeback: false,
            l1_bank: 0,
            l2_bank: 0,
        }
    }
}

/// Contents of an optional vector.
pub open spec fn opt_view<A>(o: Option<Vec<A>>) -> Option<Seq<A>> {
    match o {
        Some(v) => Some(v@),
        None => None,
    }
}

/// A copy of an optional vector of lane addresses.
pub fn copy_u64s(o: &Option<Vec<u64>>) -> (r: Option<Vec<u64>>)
    ensures
        opt_view(r) == opt_view(*o),
{
    match o {
        Some(v) => {
            let mut out: Vec<u64> = Vec::new();
            let mut i: usize = 0;
            while i < v.len()
                invariant
                    i <= v@.len(),
                    out@ == v@.take(i as int),
                decreases v@.len() - i,
            {
                out.push(v[i]);
                i = i + 1;
                proof {
                    assert(out@ =~= v@.take(i as int));
                }
            }
            assert(out@ =~= v@);
            Some(out)
        },
        None => None,
    }
}

impl GmemRequest {
    /// `self` and `other` hold the same values, vectors compared by content.
    pub open spec fn same_as(&self, other: &GmemRequest) -> bool {
        &&& self.id == other.id
        &&& self.core_id == other.core_id
        &&& self.cluster_id == other.cluster_id
        &&& self.warp == other.warp
        &&& self.addr == other.addr
        &&& self.line_addr == other.line_addr
        &&& opt_view(self.lane_addrs) == opt_view(other.lane_addrs)
        &&& opt_view(self.coalesced_lines) == opt_view(other.coalesced_lines)
        &&& self.bytes == other.bytes
        &&& self.active_lanes == other.active_lanes
        &&& self.is_load == other.is_load
        &&& self.stall_on_completion == other.stall_on_completion
        &&& self.kind == other.kind
        &&& self.l0_hit == other.l0_hit
        &&& self.l1_hit == other.l1_hit
        &&& self.l2_hit == other.l2_hit
        &&& self.l1_writeback == other.l1_writeback
        &&& self.l2_writeback == other.l2_writeback
        &&& self.l1_bank == other.l1_bank
        &&& self.l2_bank == other.l2_bank
    }

    /// A copy of this request.
    pub fn duplicate(&self) -> (r: Self)
        ensures
            r.same_as(self),
    {
        GmemRequest {
            id: self.id,
            core_id: self.core_id,
            cluster_id: self.cluster_id,
            warp: self.warp,
            addr: self.addr,
            line_addr: self.line_addr,
            lane_addrs: copy_u64s(&self.lane_addrs),
            coalesced_lines: copy_u64s(&self.coalesced_lines),
            bytes: self.bytes,
            active_lanes: self.active_lanes,
            is_load: self.is_load,
            stall_on_completion: self.stall_on_completion,
            kind: self.kind,
            l0_hit: self.l0_hit,
            l1_hit: self.l1_hit,
            l2_hit: self.l2_hit,
            l1_writeback: self.l1_writeback,
            l2_writeback: self.l2_writeback,
            l1_bank: self.l1_bank,
            l2_bank: self.l2_bank,
        }
    }
}

#[derive(Debug, Clone)]
pub struct GmemCompletion {
    pub request: GmemRequest,
    pub ticket_ready_at: Cycle,
    pub completed_at: Cycle,
}

#[derive(Debug, Clone)]
pub struct GmemIssue {
    pub request_id: u64,
    pub ticket: Ticket,
}

#[derive(Debug, Clone, Copy, PartialEq, Eq, Structural)]
pub enum GmemRejectReason {
    QueueFull,
    Busy,
}

#[derive(Debug, Clone)]
pub struct GmemReject {
    pub request: GmemRequest,
    pub retry_at: Cycle,
    pub reason: GmemRejectReason,
}

/// Result of an operation that hands a refused request back.
pub type GmemResult<T> = Result<T, GmemReject>;

/// The global-memory request carried by a core-flow request.
pub fn extract_gmem_request(request: ServiceRequest<CoreFlowPayload>) -> (r: GmemRequest)
    requires
        request.payload is Gmem,
    ensures
        r == request.payload->Gmem_0,
{
    match request.payload {
        CoreFlowPayload::Gmem(req) => req,
        CoreFlowPayload::Smem(_) => {
            proof {
                assert(false);
            }
            GmemRequest::new(0, 0, 0, false)
        },
    }
}

} // verus!
