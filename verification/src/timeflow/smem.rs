//! Banked shared memory: configuration, address decoding, requests and
//! statistics.

pub mod arbiter;
pub mod lanes;
pub mod ports;
pub mod replay;
pub mod subgraph;

pub use subgraph::{extract_smem_request, SmemSubgraph};

use crate::timeflow::gmem::request::{copy_u64s, opt_view};
pub use crate::timeflow::types::RejectReason as SmemRejectReason;
use crate::timeflow::types::RejectWith;
use crate::timeq::{sat_add, Cycle, Ticket};
use vstd::prelude::*;

verus! {

#[derive(Debug, Clone, Copy, PartialEq, Eq, Structural)]
pub enum MemType {
    TwoPort,
    TwoReadOneWrite,
}

impl Default for MemType {
    fn default() -> (r: Self)
        ensures
            r == MemType::TwoPort,
    {
        MemType::TwoPort
    }
}

#[derive(Debug, Clone, Copy, PartialEq, Eq, Structural)]
pub enum SmemSerialization {
    CoreSerialized,
    FullySerialized,
    NotSerialized,
}

impl Default for SmemSerialization {
    fn default() -> (r: Self)
        ensures
            r == SmemSerialization::CoreSerialized,
    {
        SmemSerialization::CoreSerialized
    }
}

/// How an address selects a bank and a subbank.
#[derive(Debug, Clone, Copy, PartialEq, Eq, Structural)]
pub enum SmemAddressMap {
    /// Contiguous banks: `bank = (addr / bank_size) % banks`,
    /// `subbank = (addr / word_bytes) % subbanks`.
    RtlContiguousBanks,
    /// Word-interleaved, subbank first.
    SubbankThenBank,
    /// Word-interleaved, bank first.
    BankThenSubbank,
}

impl Default for SmemAddressMap {
    fn default() -> (r: Self)
        ensures
            r == SmemAddressMap::RtlContiguousBanks,
    {
        SmemAddressMap::RtlContiguousBanks
    }
}

#[derive(Debug, Clone, Copy, PartialEq, Eq, Structural)]
pub enum SmemClientKind {
    Muon,
    Gemmini,
    External,
}

impl Default for SmemClientKind {
    fn default() -> (r: Self)
        ensures
            r == SmemClientKind::Muon,
    {
        SmemClientKind::Muon
    }
}

/// `x`, or 1 when `x` is zero.
pub open spec fn at_least_one(x: int) -> int {
    if x < 1 {
        1
    } else {
        x
    }
}

fn max1_usize(x: usize) -> (r: usize)
    ensures
        r == at_least_one(x as int),
{
    if x < 1 {
        1
    } else {
        x
    }
}

fn max1_u64(x: u64) -> (r: u64)
    ensures
        r == at_least_one(x as int),
{
    if x < 1 {
        1
    } else {
        x
    }
}

#[derive(Debug, Clone)]
pub struct SmemStats {
    pub issued: u64,
    pub read_issued: u64,
    pub write_issued: u64,
    pub completed: u64,
    pub read_completed: u64,
    pub write_completed: u64,
    pub queue_full_rejects: u64,
    pub busy_rejects: u64,
    pub bytes_issued: u64,
    pub bytes_completed: u64,
    pub inflight: u64,
    pub max_inflight: u64,
    pub max_completion_queue: u64,
    pub last_completion_cycle: Option<Cycle>,
    pub sample_cycles: u64,
    pub bank_busy_samples: Vec<u64>,
    pub bank_read_busy_samples: Vec<u64>,
    pub bank_write_busy_samples: Vec<u64>,
    pub bank_attempts: Vec<u64>,
    pub bank_conflicts: Vec<u64>,
}

/// A copy of the counters `v`.
pub fn copy_counts(v: &Vec<u64>) -> (r: Vec<u64>)
    ensures
        r@ == v@,
{
    let mut out: Vec<u64> = Vec::new();
    let mut i: usize = 0;
    while i < v.len()
        invariant
            i <= v@.len(),
            out@ == v@.take(i as int),
        decreases v@.len() - i,
    {
        out.push(v[i]);
        i = i + 1;
        proof {
            assert(out@ =~= v@.take(i as int));
        }
    }
    proof {
        assert(v@.take(v@.len() as int) =~= v@);
    }
    out
}

/// Entry `i` of `s`, or zero past its end.
pub open spec fn entry_or_zero(s: Seq<u64>, i: int) -> int {
    if 0 <= i < s.len() {
        s[i] as int
    } else {
        0
    }
}

/// Elementwise saturating sum of two counter vectors, as long as the longer.
pub open spec fn merged_sums(a: Seq<u64>, b: Seq<u64>) -> Seq<u64> {
    Seq::new(
        if a.len() >= b.len() {
            a.len()
        } else {
            b.len()
        },
        |i: int| sat_add(entry_or_zero(a, i), entry_or_zero(b, i)),
    )
}

/// Later of two optional cycles.
pub open spec fn later_cycle(a: Option<Cycle>, b: Option<Cycle>) -> Option<Cycle> {
    match (a, b) {
        (Some(x), Some(y)) => Some(
            if x >= y {
                x
            } else {
                y
            },
        ),
        (None, Some(y)) => Some(y),
        (x, None) => x,
    }
}

pub fn later_cycle_exec(a: Option<Cycle>, b: Option<Cycle>) -> (r: Option<Cycle>)
    ensures
        r == later_cycle(a, b),
{
    match (a, b) {
        (Some(x), Some(y)) => Some(
            if x >= y {
                x
            } else {
                y
            },
        ),
        (None, Some(y)) => Some(y),
        (x, None) => x,
    }
}

fn merge_vec_sums(dst: &mut Vec<u64>, src: &Vec<u64>)
    ensures
        final(dst)@ == merged_sums(old(dst)@, src@),
{
    let ghost d0 = dst@;
    if dst.len() < src.len() {
        dst.resize(src.len(), 0);
    }
    let n = src.len();
    let mut idx: usize = 0;
    while idx < n
        invariant
            n == src@.len(),
            0 <= idx <= n,
            dst@.len() == merged_sums(d0, src@).len(),
            forall|i: int|
                0 <= i < idx ==> dst@[i] == #[trigger] merged_sums(d0, src@)[i],
            forall|i: int|
                idx <= i < dst@.len() ==> #[trigger] dst@[i] as int == entry_or_zero(d0, i),
        decreases n - idx,
    {
        let v = dst[idx].saturating_add(src[idx]);
        dst.set(idx, v);
        idx = idx + 1;
    }
    assert(dst@ =~= merged_sums(d0, src@));
}

fn zeros(n: usize) -> (r: Vec<u64>)
    ensures
        r@ == Seq::new(n as nat, |i: int| 0u64),
{
    let mut v: Vec<u64> = Vec::new();
    while v.len() < n
        invariant
            v.len() <= n,
            forall|i: int| 0 <= i < v.len() ==> v@[i] == 0,
        decreases n - v.len(),
    {
        v.push(0);
    }
    assert(v@ =~= Seq::new(n as nat, |i: int| 0u64));
    v
}

impl SmemStats {
    /// `other` holds the same counters as `self`.
    pub open spec fn same_counts(self, other: Self) -> bool {
        &&& other.issued == self.issued
        &&& other.read_issued == self.read_issued
        &&& other.write_issued == self.write_issued
        &&& other.completed == self.completed
        &&& other.read_completed == self.read_completed
        &&& other.write_completed == self.write_completed
        &&& other.queue_full_rejects == self.queue_full_rejects
        &&& other.busy_rejects == self.busy_rejects
        &&& other.bytes_issued == self.bytes_issued
        &&& other.bytes_completed == self.bytes_completed
        &&& other.inflight == self.inflight
        &&& other.max_inflight == self.max_inflight
        &&& other.max_completion_queue == self.max_completion_queue
        &&& other.last_completion_cycle == self.last_completion_cycle
        &&& other.sample_cycles == self.sample_cycles
        &&& other.bank_busy_samples@ == self.bank_busy_samples@
        &&& other.bank_read_busy_samples@ == self.bank_read_busy_samples@
        &&& other.bank_write_busy_samples@ == self.bank_write_busy_samples@
        &&& other.bank_attempts@ == self.bank_attempts@
        &&& other.bank_conflicts@ == self.bank_conflicts@
    }

    /// A copy of these statistics.
    pub fn duplicate(&self) -> (r: Self)
        ensures
            self.same_counts(r),
    {
        SmemStats {
            issued: self.issued,
            read_issued: self.read_issued,
            write_issued: self.write_issued,
            completed: self.completed,
            read_completed: self.read_completed,
            write_completed: self.write_completed,
            queue_full_rejects: self.queue_full_rejects,
            busy_rejects: self.busy_rejects,
            bytes_issued: self.bytes_issued,
            bytes_completed: self.bytes_completed,
            inflight: self.inflight,
            max_inflight: self.max_inflight,
            max_completion_queue: self.max_completion_queue,
            last_completion_cycle: self.last_completion_cycle,
            sample_cycles: self.sample_cycles,
            bank_busy_samples: copy_counts(&self.bank_busy_samples),
            bank_read_busy_samples: copy_counts(&self.bank_read_busy_samples),
            bank_write_busy_samples: copy_counts(&self.bank_write_busy_samples),
            bank_attempts: copy_counts(&self.bank_attempts),
            bank_conflicts: copy_counts(&self.bank_conflicts),
        }
    }
    /// All scalar counters are zero and there is no completion yet.
    pub open spec fn scalars_zero(self) -> bool {
        &&& self.issued == 0
        &&& self.read_issued == 0
        &&& self.write_issued == 0
        &&& self.completed == 0
        &&& self.read_completed == 0
        &&& self.write_completed == 0
        &&& self.queue_full_rejects == 0
        &&& self.busy_rejects == 0
        &&& self.bytes_issued == 0
        &&& self.bytes_completed == 0
        &&& self.inflight == 0
        &&& self.max_inflight == 0
        &&& self.max_completion_queue == 0
        &&& self.last_completion_cycle is None
        &&& self.sample_cycles == 0
    }

    /// Zeroed statistics with one zero counter per bank.
    pub fn with_banks(num_banks: usize) -> (r: Self)
        ensures
            r.scalars_zero(),
            r.bank_busy_samples@ == Seq::new(num_banks as nat, |i: int| 0u64),
            r.bank_read_busy_samples@ == Seq::new(num_banks as nat, |i: int| 0u64),
            r.bank_write_busy_samples@ == Seq::new(num_banks as nat, |i: int| 0u64),
            r.bank_attempts@ == Seq::new(num_banks as nat, |i: int| 0u64),
            r.bank_conflicts@ == Seq::new(num_banks as nat, |i: int| 0u64),
    {
        Self {
            issued: 0,
            read_issued: 0,
            write_issued: 0,
            completed: 0,
            read_completed: 0,
            write_completed: 0,
            queue_full_rejects: 0,
            busy_rejects: 0,
            bytes_issued: 0,
            bytes_completed: 0,
            inflight: 0,
            max_inflight: 0,
            max_completion_queue: 0,
            last_completion_cycle: None,
            sample_cycles: 0,
            bank_busy_samples: zeros(num_banks),
            bank_read_busy_samples: zeros(num_banks),
            bank_write_busy_samples: zeros(num_banks),
            bank_attempts: zeros(num_banks),
            bank_conflicts: zeros(num_banks),
        }
    }

    /// Add `other` into `self`: counters add (saturating), maxima take the
    /// larger value, the last completion takes the later cycle, and the
    /// per-bank vectors add elementwise.
    pub fn accumulate(&mut self, other: &SmemStats)
        ensures
            final(self).issued == sat_add(old(self).issued as int, other.issued as int),
            final(self).read_issued == sat_add(old(self).read_issued as int, other.read_issued as int),
            final(self).write_issued == sat_add(
                old(self).write_issued as int,
                other.write_issued as int,
            ),
            final(self).completed == sat_add(old(self).completed as int, other.completed as int),
            final(self).read_completed == sat_add(
                old(self).read_completed as int,
                other.read_completed as int,
            ),
            final(self).write_completed == sat_add(
                old(self).write_completed as int,
                other.write_completed as int,
            ),
            final(self).queue_full_rejects == sat_add(
                old(self).queue_full_rejects as int,
                other.queue_full_rejects as int,
            ),
            final(self).busy_rejects == sat_add(old(self).busy_rejects as int, other.busy_rejects as int),
            final(self).bytes_issued == sat_add(old(self).bytes_issued as int, other.bytes_issued as int),
            final(self).bytes_completed == sat_add(
                old(self).bytes_completed as int,
                other.bytes_completed as int,
            ),
            final(self).inflight == sat_add(old(self).inflight as int, other.inflight as int),
            final(self).max_inflight == (if old(self).max_inflight >= other.max_inflight {
                old(self).max_inflight
            } else {
                other.max_inflight
            }),
            final(self).max_completion_queue == (if old(self).max_completion_queue
                >= other.max_completion_queue {
                old(self).max_completion_queue
            } else {
                other.max_completion_queue
            }),
            final(self).last_completion_cycle == later_cycle(
                old(self).last_completion_cycle,
                other.last_completion_cycle,
            ),
            final(self).sample_cycles == sat_add(
                old(self).sample_cycles as int,
                other.sample_cycles as int,
            ),
            final(self).bank_busy_samples@ == merged_sums(
                old(self).bank_busy_samples@,
                other.bank_busy_samples@,
            ),
            final(self).bank_read_busy_samples@ == merged_sums(
                old(self).bank_read_busy_samples@,
                other.bank_read_busy_samples@,
            ),
            final(self).bank_write_busy_samples@ == merged_sums(
                old(self).bank_write_busy_samples@,
                other.bank_write_busy_samples@,
            ),
            final(self).bank_attempts@ == merged_sums(
                old(self).bank_attempts@,
                other.bank_attempts@,
            ),
            final(self).bank_conflicts@ == merged_sums(
                old(self).bank_conflicts@,
                other.bank_conflicts@,
            ),
    {
        self.issued = self.issued.saturating_add(other.issued);
        self.read_issued = self.read_issued.saturating_add(other.read_issued);
        self.write_issued = self.write_issued.saturating_add(other.write_issued);
        self.completed = self.completed.saturating_add(other.completed);
        self.read_completed = self.read_completed.saturating_add(other.read_completed);
        self.write_completed = self.write_completed.saturating_add(other.write_completed);
        self.queue_full_rejects = self.queue_full_rejects.saturating_add(other.queue_full_rejects);
        self.busy_rejects = self.busy_rejects.saturating_add(other.busy_rejects);
        self.bytes_issued = self.bytes_issued.saturating_add(other.bytes_issued);
        self.bytes_completed = self.bytes_completed.saturating_add(other.bytes_completed);
        self.inflight = self.inflight.saturating_add(other.inflight);
        if other.max_inflight > self.max_inflight {
            self.max_inflight = other.max_inflight;
        }
        if other.max_completion_queue > self.max_completion_queue {
            self.max_completion_queue = other.max_completion_queue;
        }
        self.last_completion_cycle = later_cycle_exec(
            self.last_completion_cycle,
            other.last_completion_cycle,
        );
        self.sample_cycles = self.sample_cycles.saturating_add(other.sample_cycles);
        merge_vec_sums(&mut self.bank_busy_samples, &other.bank_busy_samples);
        merge_vec_sums(&mut self.bank_read_busy_samples, &other.bank_read_busy_samples);
        merge_vec_sums(&mut self.bank_write_busy_samples, &other.bank_write_busy_samples);
        merge_vec_sums(&mut self.bank_attempts, &other.bank_attempts);
        merge_vec_sums(&mut self.bank_conflicts, &other.bank_conflicts);
    }
}

#[derive(Debug, Clone, Copy)]
pub struct SmemUtilSample {
    pub lane_busy: usize,
    pub lane_total: usize,
    pub bank_busy: usize,
    pub bank_total: usize,
}

#[derive(Debug, Clone)]
pub struct SmemRequest {
    pub id: u64,
    pub warp: usize,
    pub addr: u64,
    pub lane_addrs: Option<Vec<u64>>,
    pub lane_ids: Option<Vec<usize>>,
    pub bytes: u32,
    pub active_lanes: u32,
    pub is_store: bool,
    pub client: SmemClientKind,
    pub bank: usize,
    pub subbank: usize,
}

/// A copy of an optional vector of lane ids.
pub fn copy_usizes(o: &Option<Vec<usize>>) -> (r: Option<Vec<usize>>)
    ensures
        opt_view(r) == opt_view(*o),
{
    match o {
        Some(v) => {
            let mut out: Vec<usize> = Vec::new();
            let mut i: usize = 0;
            while i < v.len()
                invariant
                    i <= v@.len(),
                    out@ == v@.take(i as int),
                decreases v@.len() - i,
            {
                out.push(v[i]);
                i = i + 1;
                proof {
                    assert(out@ =~= v@.take(i as int));
                }
            }
            assert(out@ =~= v@);
            Some(out)
        },
        None => None,
    }
}

impl SmemRequest {
    /// `self` and `other` hold the same values, vectors compared by content.
    pub open spec fn same_as(&self, other: &SmemRequest) -> bool {
        &&& self.id == other.id
        &&& self.warp == other.warp
        &&& self.addr == other.addr
        &&& opt_view(self.lane_addrs) == opt_view(other.lane_addrs)
        &&& opt_view(self.lane_ids) == opt_view(other.lane_ids)
        &&& self.bytes == other.bytes
        &&& self.active_lanes == other.active_lanes
        &&& self.is_store == other.is_store
        &&& self.client == other.client
        &&& self.bank == other.bank
        &&& self.subbank == other.subbank
    }

    /// A copy of this request.
    pub fn duplicate(&self) -> (r: Self)
        ensures
            r.same_as(self),
    {
        SmemRequest {
            id: self.id,
            warp: self.warp,
            addr: self.addr,
            lane_addrs: copy_u64s(&self.lane_addrs),
            lane_ids: copy_usizes(&self.lane_ids),
            bytes: self.bytes,
            active_lanes: self.active_lanes,
            is_store: self.is_store,
            client: self.client,
            bank: self.bank,
            subbank: self.subbank,
        }
    }
}

impl SmemRequest {
    pub fn new(warp: usize, bytes: u32, active_lanes: u32, is_store: bool, bank: usize) -> (r:
        Self)
        ensures
            r.id == 0,
            r.warp == warp,
            r.addr == 0,
            r.lane_addrs is None,
            r.lane_ids is None,
            r.bytes == bytes,
            r.active_lanes == active_lanes,
            r.is_store == is_store,
            r.client == SmemClientKind::Muon,
            r.bank == bank,
            r.subbank == 0,
    {
        Self {
            id: 0,
            warp,
            addr: 0,
            lane_addrs: None,
            lane_ids: None,
            bytes,
            active_lanes,
            is_store,
            client: SmemClientKind::Muon,
            bank,
            subbank: 0,
        }
    }
}

#[derive(Debug, Clone)]
pub struct SmemCompletion {
    pub request: SmemRequest,
    pub ticket_ready_at: Cycle,
    pub completed_at: Cycle,
}

pub type SmemReject = RejectWith<SmemRequest>;

#[derive(Debug, Clone)]
pub struct SmemIssue {
    pub request_id: u64,
    pub ticket: Ticket,
}

#[derive(Debug, Clone)]
pub struct SmemPatternRun {
    pub stream_id: usize,
    pub pattern_idx: usize,
    pub suite: String,
    pub pattern_name: String,
    pub addrs: Vec<Vec<u64>>,
    pub is_read: bool,
    pub req_bytes: u32,
    pub active_lanes: usize,
    pub max_inflight_per_lane: usize,
    pub issue_gap: u64,
    pub working_set_bytes: u64,
}

#[derive(Debug, Clone)]
pub struct SmemPatternResult {
    pub stream_id: usize,
    pub pattern_idx: usize,
    pub suite: String,
    pub pattern_name: String,
    pub finished_cycle: Cycle,
    pub duration_cycles: Cycle,
    pub reqs_per_lane: u32,
    pub active_lanes: usize,
    pub issue_gap: u64,
    pub max_outstanding: usize,
    pub working_set_bytes: u64,
}

#[derive(Debug, Clone, Copy)]
pub struct SmemFlowConfig {
    pub smem_size: u64,
    pub num_banks: usize,
    pub num_subbanks: usize,
    pub word_bytes: u32,
    pub prealign_buf_depth: usize,
    pub mem_type: MemType,
    pub stride_by_word: bool,
    pub serialization: SmemSerialization,
    pub address_map: SmemAddressMap,
    pub num_lanes: usize,
    pub base_overhead: u64,
    pub read_extra: u64,
    pub max_outstanding: usize,
    pub prealign_latency: u64,
    pub prealign_bytes_per_cycle: u32,
    pub crossbar_latency: u64,
    pub crossbar_bytes_per_cycle: u32,
    pub port_latency_read: u64,
    pub port_latency_write: u64,
    pub bank_read_bytes_per_cycle: u32,
    pub bank_write_bytes_per_cycle: u32,
    pub tail_bytes_per_cycle: u32,
    pub port_queue_depth: usize,
    pub completion_queue_depth: usize,
}

impl SmemFlowConfig {
    pub open spec fn bank_size_spec(self) -> u64 {
        (self.smem_size / (at_least_one(self.num_banks as int) as u64)) as u64
    }

    pub open spec fn active_subbanks_spec(self) -> usize {
        if self.stride_by_word {
            at_least_one(self.num_subbanks as int) as usize
        } else {
            1
        }
    }

    pub open spec fn crossbar_inputs_spec(self) -> usize {
        match self.serialization {
            SmemSerialization::FullySerialized => 1,
            _ => at_least_one(self.num_lanes as int) as usize,
        }
    }

    /// (bank, subbank) that `addr` maps to.
    pub open spec fn decode_spec(self, addr: u64) -> (usize, usize) {
        let banks = at_least_one(self.num_banks as int);
        let subbanks = at_least_one(self.active_subbanks_spec() as int);
        let word = addr as int / at_least_one(self.word_bytes as int);
        let contiguous_bank = ((addr as int / at_least_one(self.bank_size_spec() as int))
            % banks) as usize;
        if !self.stride_by_word {
            (contiguous_bank, 0)
        } else {
            match self.address_map {
                SmemAddressMap::RtlContiguousBanks => (
                    contiguous_bank,
                    (word % subbanks) as usize,
                ),
                SmemAddressMap::SubbankThenBank => (
                    ((word / subbanks) % banks) as usize,
                    (word % subbanks) as usize,
                ),
                SmemAddressMap::BankThenSubbank => (
                    (word % banks) as usize,
                    ((word / banks) % subbanks) as usize,
                ),
            }
        }
    }

    /// Bytes per bank in the contiguous layout.
    pub fn bank_size_bytes(&self) -> (r: u64)
        ensures
            r == self.bank_size_spec(),
    {
        let banks = max1_usize(self.num_banks) as u64;
        self.smem_size / banks
    }

    /// Subbanks that take part in address interleaving.
    pub fn active_subbanks(&self) -> (r: usize)
        ensures
            r == self.active_subbanks_spec(),
            r >= 1,
    {
        if self.stride_by_word {
            max1_usize(self.num_subbanks)
        } else {
            1
        }
    }

    pub fn read_ports_per_subbank(&self) -> (r: usize)
        ensures
            r == (match self.mem_type {
                MemType::TwoPort => 1usize,
                MemType::TwoReadOneWrite => 2usize,
            }),
    {
        match self.mem_type {
            MemType::TwoPort => 1,
            MemType::TwoReadOneWrite => 2,
        }
    }

    pub fn write_ports_per_subbank(&self) -> (r: usize)
        ensures
            r == 1,
    {
        1
    }

    /// One crossbar input per lane, or a single one when fully serialized.
    pub fn crossbar_inputs(&self) -> (r: usize)
        ensures
            r == self.crossbar_inputs_spec(),
            r >= 1,
    {
        match self.serialization {
            SmemSerialization::FullySerialized => 1,
            SmemSerialization::CoreSerialized | SmemSerialization::NotSerialized => max1_usize(
                self.num_lanes,
            ),
        }
    }

    /// One crossbar output per active subbank.
    pub fn crossbar_outputs(&self) -> (r: usize)
        ensures
            r == self.active_subbanks_spec(),
            r >= 1,
    {
        max1_usize(self.active_subbanks())
    }

    /// Bank and subbank that serve `addr`.
    pub fn decode_addr(&self, addr: u64) -> (r: (usize, usize))
        ensures
            r == self.decode_spec(addr),
            r.0 < at_least_one(self.num_banks as int),
            r.1 < self.active_subbanks_spec(),
    {
        let num_banks = max1_usize(self.num_banks);
        let num_subbanks = max1_usize(self.active_subbanks());
        let word_bytes = max1_u64(self.word_bytes as u64);
        let bank_size = max1_u64(self.bank_size_bytes());
        let contiguous_bank = ((addr / bank_size) % (num_banks as u64)) as usize;
        if !self.stride_by_word {
            return (contiguous_bank, 0);
        }
        let word = addr / word_bytes;
        match self.address_map {
            SmemAddressMap::RtlContiguousBanks => {
                let subbank = (word % (num_subbanks as u64)) as usize;
                (contiguous_bank, subbank)
            },
            SmemAddressMap::SubbankThenBank => {
                let subbank = (word % (num_subbanks as u64)) as usize;
                let bank = ((word / (num_subbanks as u64)) % (num_banks as u64)) as usize;
                (bank, subbank)
            },
            SmemAddressMap::BankThenSubbank => {
                let bank = (word % (num_banks as u64)) as usize;
                let subbank = ((word / (num_banks as u64)) % (num_subbanks as u64)) as usize;
                (bank, subbank)
            },
        }
    }

    /// Crossbar output that serves `subbank` (clamped to the last output).
    pub fn xbar_output_for_target(&self, bank: usize, subbank: usize) -> (r: usize)
        ensures
            r == (if subbank < self.active_subbanks_spec() {
                subbank
            } else {
                (self.active_subbanks_spec() - 1) as usize
            }),
    {
        let subbanks = max1_usize(self.active_subbanks());
        let last = subbanks - 1;
        if subbank < last {
            subbank
        } else {
            last
        }
    }
}

impl SmemFlowConfig {
    /// The values that `default()` gives.
    pub open spec fn is_default(self) -> bool {
        &&& self.smem_size == 131072
        &&& self.num_banks == 4
        &&& self.num_subbanks == 16
        &&& self.word_bytes == 4
        &&& self.prealign_buf_depth == 2
        &&& self.mem_type == MemType::TwoPort
        &&& self.stride_by_word
        &&& self.serialization == SmemSerialization::CoreSerialized
        &&& self.address_map == SmemAddressMap::RtlContiguousBanks
        &&& self.num_lanes == 16
        &&& self.base_overhead == 0
        &&& self.read_extra == 0
        &&& self.max_outstanding == 512
        &&& self.prealign_latency == 0
        &&& self.prealign_bytes_per_cycle == 1024
        &&& self.crossbar_latency == 0
        &&& self.crossbar_bytes_per_cycle == 1024
        &&& self.port_latency_read == 0
        &&& self.port_latency_write == 0
        &&& self.bank_read_bytes_per_cycle == 1024
        &&& self.bank_write_bytes_per_cycle == 1024
        &&& self.tail_bytes_per_cycle == 1024
        &&& self.port_queue_depth == 64
        &&& self.completion_queue_depth == 64
    }
}

impl Default for SmemFlowConfig {
    fn default() -> (r: Self)
        ensures
            r.is_default(),
    {
        Self {
            smem_size: 131072,
            num_banks: 4,
            num_subbanks: 16,
            word_bytes: 4,
            prealign_buf_depth: 2,
            mem_type: MemType::TwoPort,
            stride_by_word: true,
            serialization: SmemSerialization::CoreSerialized,
            address_map: SmemAddressMap::RtlContiguousBanks,
            num_lanes: 16,
            base_overhead: 0,
            read_extra: 0,
            max_outstanding: 512,
            prealign_latency: 0,
            prealign_bytes_per_cycle: 1024,
            crossbar_latency: 0,
            crossbar_bytes_per_cycle: 1024,
            port_latency_read: 0,
            port_latency_write: 0,
            bank_read_bytes_per_cycle: 1024,
            bank_write_bytes_per_cycle: 1024,
            tail_bytes_per_cycle: 1024,
            port_queue_depth: 64,
            completion_queue_depth: 64,
        }
    }
}

/// Stepping `x` by one: the remainder advances, wrapping to zero when it
/// reaches `d`, and the quotient advances exactly on that wrap.
proof fn lemma_step_div_mod(x: int, d: int)
    requires
        x >= 0,
        d >= 1,
    ensures
        (x + 1) % d == (if x % d + 1 == d {
            0
        } else {
            x % d + 1
        }),
        (x + 1) / d == (if x % d + 1 == d {
            x / d + 1
        } else {
            x / d
        }),
        0 <= x % d < d,
        x / d >= 0,
{
    vstd::arithmetic::div_mod::lemma_fundamental_div_mod(x, d);
    vstd::arithmetic::div_mod::lemma_mod_bound(x, d);
    vstd::arithmetic::div_mod::lemma_div_pos_is_pos(x, d);
    let q = x / d;
    let r = x % d;
    if r + 1 == d {
        assert(x + 1 == (q + 1) * d + 0) by (nonlinear_arith)
            requires
                x == d * q + r,
                r + 1 == d,
        ;
        vstd::arithmetic::div_mod::lemma_fundamental_div_mod_converse(x + 1, d, q + 1, 0);
    } else {
        assert(x + 1 == q * d + (r + 1)) by (nonlinear_arith)
            requires
                x == d * q + r,
        ;
        vstd::arithmetic::div_mod::lemma_fundamental_div_mod_converse(x + 1, d, q, r + 1);
    }
}

/// Adding `k * d` to `x` keeps its remainder by `d` and adds `k` to its
/// quotient.
proof fn lemma_add_multiple_div_mod(x: int, d: int, k: int)
    requires
        x >= 0,
        d >= 1,
        k >= 0,
    ensures
        (x + k * d) % d == x % d,
        (x + k * d) / d == x / d + k,
{
    vstd::arithmetic::div_mod::lemma_fundamental_div_mod(x, d);
    vstd::arithmetic::div_mod::lemma_mod_bound(x, d);
    let q = x / d;
    let r = x % d;
    assert(x + k * d == (q + k) * d + r) by (nonlinear_arith)
        requires
            x == d * q + r,
    ;
    vstd::arithmetic::div_mod::lemma_fundamental_div_mod_converse(x + k * d, d, q + k, r);
}

/// `i + 1`, wrapping to 0 at `n`.
pub open spec fn wrap_next(i: int, n: int) -> int {
    if i + 1 == n {
        0
    } else {
        i + 1
    }
}

impl SmemFlowConfig {
    /// Bytes per word (at least one).
    pub open spec fn word_step(self) -> int {
        at_least_one(self.word_bytes as int)
    }

    /// Banks (at least one).
    pub open spec fn bank_count(self) -> int {
        at_least_one(self.num_banks as int)
    }

    /// Subbanks taking part in interleaving (at least one).
    pub open spec fn subbank_count(self) -> int {
        at_least_one(self.active_subbanks_spec() as int)
    }

    /// The bank that the byte address `a` decodes to.
    pub open spec fn bank_at(self, a: int) -> int {
        self.decode_spec(a as u64).0 as int
    }

    /// The subbank that the byte address `a` decodes to.
    pub open spec fn subbank_at(self, a: int) -> int {
        self.decode_spec(a as u64).1 as int
    }
}

impl SmemFlowConfig {
    /// Bytes per bank in the contiguous layout (at least one).
    pub open spec fn bank_step(self) -> int {
        at_least_one(self.bank_size_spec() as int)
    }

    /// Without word striding, or under the contiguous-bank map, banks are
    /// contiguous ranges of `smem_size / banks` bytes: the first range is
    /// bank 0, and each next range is the next bank, wrapping around.
    pub proof fn lemma_decode_contiguous(self, addr: u64)
        ensures
            (!self.stride_by_word || self.address_map == SmemAddressMap::RtlContiguousBanks) && addr < self.bank_step()
                ==> self.bank_at(addr as int) == 0,
            (!self.stride_by_word || self.address_map == SmemAddressMap::RtlContiguousBanks) && addr + self.bank_step()
                <= u64::MAX ==> self.bank_at(addr + self.bank_step()) == wrap_next(self.bank_at(addr as int), self.bank_count()),
            self.smem_size >= self.bank_count() ==> self.bank_step() * self.bank_count() <= self.smem_size
                < (self.bank_step() + 1) * self.bank_count(),
    {
        if self.smem_size >= self.bank_count() {
            let m = self.smem_size as int;
            let nb = self.bank_count();
            vstd::arithmetic::div_mod::lemma_fundamental_div_mod(m, nb);
            vstd::arithmetic::div_mod::lemma_mod_bound(m, nb);
            vstd::arithmetic::div_mod::lemma_div_pos_is_pos(m, nb);
            vstd::arithmetic::div_mod::lemma_div_non_zero(m, nb);
            let q = m / nb;
            assert(q * nb <= m < (q + 1) * nb) by (nonlinear_arith)
                requires
                    m == nb * q + m % nb,
                    0 <= m % nb < nb,
            ;
            assert(self.bank_size_spec() as int == q);
        }
        let bs = self.bank_step();
        let banks = self.bank_count();
        let q = addr as int / bs;
        vstd::arithmetic::div_mod::lemma_div_pos_is_pos(addr as int, bs);
        if addr < bs {
            vstd::arithmetic::div_mod::lemma_basic_div(addr as int, bs);
            vstd::arithmetic::div_mod::lemma_small_mod(0, banks as nat);
        }
        if addr + bs <= u64::MAX {
            lemma_add_multiple_div_mod(addr as int, bs, 1);
            assert(((addr + bs) as u64) as int / bs == q + 1);
            lemma_step_div_mod(q, banks);
        }
    }
}

impl SmemFlowConfig {
    /// The word-interleaved maps, as address steps.
    /// - The next word (`addr + word_bytes`) goes to the next subbank under
    ///   the subbank-first and the contiguous-bank maps, and to the next bank
    ///   under the bank-first map; the other index advances exactly when
    ///   the first wraps (bank-first: the subbank moves once per full round
    ///   of banks; subbank-first: the bank moves once per full round of
    ///   subbanks).
    /// - Under the bank-first map, the words `banks` apart share their bank
    ///   and sit in adjacent subbanks.
    /// - Word 0 is bank 0, subbank 0 under both interleaved maps; without
    ///   word striding every address is subbank 0.
    pub proof fn lemma_decode_steps(self, addr: u64)
        ensures
            !self.stride_by_word ==> self.decode_spec(addr).1 == 0,
            self.stride_by_word && self.address_map == SmemAddressMap::BankThenSubbank && addr + self.word_step() <= u64::MAX
                ==> self.bank_at(addr + self.word_step()) == wrap_next(self.bank_at(addr as int), self.bank_count())
                && self.subbank_at(addr + self.word_step()) == (if self.bank_at(addr as int) + 1 == self.bank_count() {
                wrap_next(self.subbank_at(addr as int), self.subbank_count())
            } else {
                self.subbank_at(addr as int)
            }),
            self.stride_by_word && self.address_map == SmemAddressMap::SubbankThenBank && addr + self.word_step() <= u64::MAX
                ==> self.subbank_at(addr + self.word_step()) == wrap_next(self.subbank_at(addr as int), self.subbank_count())
                && self.bank_at(addr + self.word_step()) == (if self.subbank_at(addr as int) + 1 == self.subbank_count() {
                wrap_next(self.bank_at(addr as int), self.bank_count())
            } else {
                self.bank_at(addr as int)
            }),
            self.stride_by_word && self.address_map == SmemAddressMap::RtlContiguousBanks && addr + self.word_step()
                <= u64::MAX ==> self.subbank_at(addr + self.word_step()) == wrap_next(self.subbank_at(addr as int), self.subbank_count()),
            self.stride_by_word && self.address_map == SmemAddressMap::BankThenSubbank && addr + self.word_step()
                * self.bank_count() <= u64::MAX ==> self.bank_at(addr + self.word_step() * self.bank_count())
                == self.bank_at(addr as int) && self.subbank_at(addr + self.word_step() * self.bank_count()) == wrap_next(
                self.subbank_at(addr as int),
                self.subbank_count(),
            ),
            self.stride_by_word && addr < self.word_step() && (self.address_map == SmemAddressMap::BankThenSubbank
                || self.address_map == SmemAddressMap::SubbankThenBank) ==> self.bank_at(addr as int) == 0
                && self.subbank_at(addr as int) == 0,
    {
        let banks = at_least_one(self.num_banks as int);
        let subbanks = at_least_one(self.active_subbanks_spec() as int);
        let wb = at_least_one(self.word_bytes as int);
        let w = addr as int / wb;
        vstd::arithmetic::div_mod::lemma_div_pos_is_pos(addr as int, wb);
        if addr < wb {
            vstd::arithmetic::div_mod::lemma_basic_div(addr as int, wb);
            assert(w == 0);
            vstd::arithmetic::div_mod::lemma_small_mod(0, banks as nat);
            vstd::arithmetic::div_mod::lemma_small_mod(0, subbanks as nat);
            vstd::arithmetic::div_mod::lemma_basic_div(0, banks);
            vstd::arithmetic::div_mod::lemma_basic_div(0, subbanks);
        }
        if addr + wb <= u64::MAX {
            lemma_add_multiple_div_mod(addr as int, wb, 1);
            assert(((addr + wb) as u64) as int / wb == w + 1);
            lemma_step_div_mod(w, banks);
            lemma_step_div_mod(w, subbanks);
            lemma_step_div_mod(w / banks, subbanks);
            lemma_step_div_mod(w / subbanks, banks);
            vstd::arithmetic::div_mod::lemma_div_pos_is_pos(w, banks);
            vstd::arithmetic::div_mod::lemma_div_pos_is_pos(w, subbanks);
        }
        if addr + wb * banks <= u64::MAX {
            assert(wb * banks >= 0) by (nonlinear_arith)
                requires
                    wb >= 1,
                    banks >= 1,
            ;
            assert(addr as int + wb * banks == addr as int + banks * wb) by (nonlinear_arith);
            lemma_add_multiple_div_mod(addr as int, wb, banks);
            assert(((addr + wb * banks) as u64) as int / wb == w + banks);
            lemma_add_multiple_div_mod(w, banks, 1);
            vstd::arithmetic::div_mod::lemma_div_pos_is_pos(w, banks);
            lemma_step_div_mod(w / banks, subbanks);
        }
    }
}

/// Bank and subbank that serve `addr` under `config`.
pub fn decode_smem_bank_subbank(config: &SmemFlowConfig, addr: u64) -> (r: (usize, usize))
    ensures
        r == config.decode_spec(addr),
{
    config.decode_addr(addr)
}

} // verus!
