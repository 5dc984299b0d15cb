//! Miss status holding registers: one entry per outstanding cache line,
//! onto which later misses to the same line are merged.

use crate::timeflow::gmem::request::GmemRequest;
use crate::timeq::{Backpressure, Cycle, ServerConfig, ServiceRequest, TimedServer};
use vstd::prelude::*;

verus! {

/// Cache outcome and placement of the miss that allocated an entry; merged
/// requests inherit it.
#[derive(Debug, Clone, Copy)]
pub struct MissMetadata {
    pub line_addr: u64,
    pub l0_hit: bool,
    pub l1_hit: bool,
    pub l2_hit: bool,
    pub l1_writeback: bool,
    pub l2_writeback: bool,
    pub l1_bank: usize,
    pub l2_bank: usize,
}

impl MissMetadata {
    /// `r` with the cache outcome and placement of this miss.
    pub open spec fn applied(self, r: GmemRequest) -> GmemRequest {
        GmemRequest {
            line_addr: self.line_addr,
            l0_hit: self.l0_hit,
            l1_hit: self.l1_hit,
            l2_hit: self.l2_hit,
            l1_writeback: self.l1_writeback,
            l2_writeback: self.l2_writeback,
            l1_bank: self.l1_bank,
            l2_bank: self.l2_bank,
            ..r
        }
    }

    pub fn from_request(request: &GmemRequest) -> (r: Self)
        ensures
            r.line_addr == request.line_addr,
            r.l0_hit == request.l0_hit,
            r.l1_hit == request.l1_hit,
            r.l2_hit == request.l2_hit,
            r.l1_writeback == request.l1_writeback,
            r.l2_writeback == request.l2_writeback,
            r.l1_bank == request.l1_bank,
            r.l2_bank == request.l2_bank,
    {
        Self {
            line_addr: request.line_addr,
            l0_hit: request.l0_hit,
            l1_hit: request.l1_hit,
            l2_hit: request.l2_hit,
            l1_writeback: request.l1_writeback,
            l2_writeback: request.l2_writeback,
            l1_bank: request.l1_bank,
            l2_bank: request.l2_bank,
        }
    }

    pub fn apply(&self, request: &mut GmemRequest)
        ensures
            *final(request) == self.applied(*old(request)),
    {
        request.line_addr = self.line_addr;
        request.l0_hit = self.l0_hit;
        request.l1_hit = self.l1_hit;
        request.l2_hit = self.l2_hit;
        request.l1_writeback = self.l1_writeback;
        request.l2_writeback = self.l2_writeback;
        request.l1_bank = self.l1_bank;
        request.l2_bank = self.l2_bank;
    }
}

/// Deepest cache level at which a request missed.
#[derive(Debug, Clone, Copy, PartialEq, Eq, Structural)]
pub enum MissLevel {
    NoMiss,
    L0,
    L1,
    L2,
}

/// What an MSHR entry holds besides its line address.
pub struct MshrSlot {
    pub meta: MissMetadata,
    pub ready_at: Option<Cycle>,
    pub merged: Seq<GmemRequest>,
}

#[derive(Debug)]
pub struct MshrEntry {
    line_addr: u64,
    meta: MissMetadata,
    ready_at: Option<Cycle>,
    pub merged: Vec<GmemRequest>,
}

impl MshrEntry {
    pub closed spec fn line(&self) -> u64 {
        self.line_addr
    }

    pub closed spec fn slot(&self) -> MshrSlot {
        MshrSlot { meta: self.meta, ready_at: self.ready_at, merged: self.merged@ }
    }

    fn new(line_addr: u64, meta: MissMetadata) -> (r: Self)
        ensures
            r.line() == line_addr,
            r.slot() == (MshrSlot { meta, ready_at: None, merged: Seq::empty() }),
    {
        Self { line_addr, meta, ready_at: None, merged: Vec::new() }
    }

    pub fn line_addr(&self) -> (r: u64)
        ensures
            r == self.line(),
    {
        self.line_addr
    }

    pub fn ready_at(&self) -> (r: Option<Cycle>)
        ensures
            r == self.slot().ready_at,
    {
        self.ready_at
    }

    pub fn meta(&self) -> (r: MissMetadata)
        ensures
            r == self.slot().meta,
    {
        self.meta
    }

    /// The requests merged onto this entry, in merge order.
    pub fn into_merged(self) -> (r: Vec<GmemRequest>)
        ensures
            r@ == self.slot().merged,
    {
        self.merged
    }
}

/// Whether some entry of `s` holds line `l`.
pub open spec fn holds_line(s: Seq<MshrEntry>, l: u64) -> bool {
    exists|i: int| 0 <= i < s.len() && (#[trigger] s[i]).line() == l
}

/// No two entries of `s` hold the same line.
pub open spec fn lines_distinct(s: Seq<MshrEntry>) -> bool {
    forall|i: int, j: int|
        0 <= i < s.len() && 0 <= j < s.len() && i != j ==> (#[trigger] s[i]).line() != (
        #[trigger] s[j]).line()
}

/// The entries of `s` as a map from line address to slot.
pub open spec fn slots_of(s: Seq<MshrEntry>) -> Map<u64, MshrSlot> {
    Map::new(
        |l: u64| holds_line(s, l),
        |l: u64| s[choose|i: int| 0 <= i < s.len() && (#[trigger] s[i]).line() == l].slot(),
    )
}

proof fn lemma_slot_at(s: Seq<MshrEntry>, i: int)
    requires
        lines_distinct(s),
        0 <= i < s.len(),
    ensures
        slots_of(s).contains_key(s[i].line()),
        slots_of(s)[s[i].line()] == s[i].slot(),
{
    let l = s[i].line();
    assert(holds_line(s, l));
    let k = choose|k: int| 0 <= k < s.len() && (#[trigger] s[k]).line() == l;
    assert(k == i);
}

proof fn lemma_update_slot(s: Seq<MshrEntry>, i: int, e: MshrEntry)
    requires
        lines_distinct(s),
        0 <= i < s.len(),
        e.line() == s[i].line(),
    ensures
        lines_distinct(s.update(i, e)),
        slots_of(s.update(i, e)) == slots_of(s).insert(e.line(), e.slot()),
{
    let s1 = s.update(i, e);
    let want = slots_of(s).insert(e.line(), e.slot());
    assert forall|a: int, b: int|
        0 <= a < s1.len() && 0 <= b < s1.len() && a != b implies (#[trigger] s1[a]).line() != (
        #[trigger] s1[b]).line() by {
        assert(s[a].line() != s[b].line());
    }
    assert forall|l: u64| slots_of(s1).contains_key(l) <==> want.contains_key(l) by {
        if holds_line(s1, l) {
            let k = choose|k: int| 0 <= k < s1.len() && (#[trigger] s1[k]).line() == l;
            assert(s[k].line() == l);
        }
        if holds_line(s, l) {
            let k = choose|k: int| 0 <= k < s.len() && (#[trigger] s[k]).line() == l;
            assert(s1[k].line() == l);
        }
        if l == e.line() {
            assert(s1[i].line() == l);
        }
    }
    assert forall|l: u64| #[trigger] want.contains_key(l) implies slots_of(s1)[l] == want[l] by {
        if l == e.line() {
            lemma_slot_at(s1, i);
        } else {
            let k = choose|k: int| 0 <= k < s.len() && (#[trigger] s[k]).line() == l;
            lemma_slot_at(s1, k);
            lemma_slot_at(s, k);
        }
    }
    assert(slots_of(s1) =~= want);
}

proof fn lemma_swap_remove_slot(s: Seq<MshrEntry>, i: int)
    requires
        lines_distinct(s),
        0 <= i < s.len(),
    ensures
        ({
            let s1 = s.update(i, s.last()).drop_last();
            &&& lines_distinct(s1)
            &&& slots_of(s1) == slots_of(s).remove(s[i].line())
        }),
{
    let n = s.len() - 1;
    let s1 = s.update(i, s.last()).drop_last();
    let gone = s[i].line();
    let want = slots_of(s).remove(gone);
    assert forall|k: int| 0 <= k < s1.len() implies (#[trigger] s1[k]) == (if k == i {
        s[n]
    } else {
        s[k]
    }) by {}
    assert forall|a: int, b: int|
        0 <= a < s1.len() && 0 <= b < s1.len() && a != b implies (#[trigger] s1[a]).line() != (
        #[trigger] s1[b]).line() by {
        let ia = if a == i { n } else { a };
        let ib = if b == i { n } else { b };
        assert(s1[a] == s[ia]);
        assert(s1[b] == s[ib]);
        assert(s[ia].line() != s[ib].line());
    }
    assert forall|l: u64| slots_of(s1).contains_key(l) <==> want.contains_key(l) by {
        if holds_line(s1, l) {
            let k = choose|k: int| 0 <= k < s1.len() && (#[trigger] s1[k]).line() == l;
            let ik = if k == i { n } else { k };
            assert(s1[k] == s[ik]);
            assert(s[ik].line() == l);
            assert(ik != i);
        }
        if holds_line(s, l) && l != gone {
            let k = choose|k: int| 0 <= k < s.len() && (#[trigger] s[k]).line() == l;
            assert(k != i);
            if k == n {
                assert(s1[i] == s[n]);
            } else {
                assert(s1[k] == s[k]);
            }
        }
    }
    assert forall|l: u64| #[trigger] want.contains_key(l) implies slots_of(s1)[l] == want[l] by {
        let k = choose|k: int| 0 <= k < s.len() && (#[trigger] s[k]).line() == l;
        lemma_slot_at(s, k);
        assert(k != i);
        if k == n {
            assert(s1[i] == s[n]);
            lemma_slot_at(s1, i);
        } else {
            assert(s1[k] == s[k]);
            lemma_slot_at(s1, k);
        }
    }
    assert(slots_of(s1) =~= want);
}

/// A bounded table of outstanding misses, one entry per line.
#[derive(Debug)]
pub struct MshrTable {
    capacity: usize,
    entries: Vec<MshrEntry>,
}

impl MshrTable {
    pub closed spec fn cap(&self) -> usize {
        self.capacity
    }

    /// Number of entries in use.
    pub closed spec fn count(&self) -> nat {
        self.entries@.len()
    }

    /// The outstanding lines and what each holds.
    pub closed spec fn table(&self) -> Map<u64, MshrSlot> {
        slots_of(self.entries@)
    }

    pub closed spec fn wf(&self) -> bool {
        &&& lines_distinct(self.entries@)
        &&& self.entries@.len() <= self.capacity
    }

    pub fn new(capacity: usize) -> (r: Self)
        ensures
            r.wf(),
            r.cap() == capacity,
            r.count() == 0,
            r.table() == Map::<u64, MshrSlot>::empty(),
    {
        let r = Self { capacity, entries: Vec::new() };
        assert(r.table() =~= Map::<u64, MshrSlot>::empty());
        r
    }

    fn find(&self, line_addr: u64) -> (r: Option<usize>)
        requires
            self.wf(),
        ensures
            r is None ==> !self.table().contains_key(line_addr),
            r matches Some(i) ==> i < self.entries@.len() && self.entries@[i as int].line()
                == line_addr,
    {
        let mut i: usize = 0;
        while i < self.entries.len()
            invariant
                i <= self.entries@.len(),
                forall|j: int| 0 <= j < i ==> (#[trigger] self.entries@[j]).line() != line_addr,
            decreases self.entries@.len() - i,
        {
            if self.entries[i].line_addr == line_addr {
                return Some(i);
            }
            i = i + 1;
        }
        None
    }

    pub fn has_entry(&self, line_addr: u64) -> (r: bool)
        requires
            self.wf(),
        ensures
            r == self.table().contains_key(line_addr),
    {
        match self.find(line_addr) {
            Some(_) => true,
            None => false,
        }
    }

    /// A miss to `line_addr` can be tracked: its line is already held, or
    /// a free entry remains.
    pub fn can_allocate(&self, line_addr: u64) -> (r: bool)
        requires
            self.wf(),
        ensures
            r == (self.table().contains_key(line_addr) || self.count() < self.cap()),
    {
        self.has_entry(line_addr) || self.entries.len() < self.capacity
    }

    /// Allocate an entry for `line_addr`: `Ok(true)` when one was
    /// allocated, `Ok(false)` when the line already had one, `Err` when the
    /// table is full.
    pub fn ensure_entry(&mut self, line_addr: u64, meta: MissMetadata) -> (r: Result<bool, ()>)
        requires
            old(self).wf(),
        ensures
            final(self).wf(),
            final(self).cap() == old(self).cap(),
            old(self).table().contains_key(line_addr) ==> r == Ok::<bool, ()>(false)
                && final(self).table() == old(self).table() && final(self).count() == old(
                self,
            ).count(),
            !old(self).table().contains_key(line_addr) && old(self).count() >= old(self).cap()
                ==> r == Err::<bool, ()>(()) && final(self).table() == old(self).table()
                && final(self).count() == old(self).count(),
            !old(self).table().contains_key(line_addr) && old(self).count() < old(self).cap()
                ==> r == Ok::<bool, ()>(true) && final(self).table() == old(self).table().insert(
                line_addr,
                MshrSlot { meta, ready_at: None, merged: Seq::empty() },
            ) && final(self).count() == old(self).count() + 1,
    {
        if self.has_entry(line_addr) {
            return Ok(false);
        }
        if self.entries.len() >= self.capacity {
            return Err(());
        }
        let ghost s0 = self.entries@;
        let e = MshrEntry::new(line_addr, meta);
        self.entries.push(e);
        proof {
            let s1 = self.entries@;
            assert(s1.len() == s0.len() + 1);
            assert forall|i: int, j: int|
                0 <= i < s1.len() && 0 <= j < s1.len() && i != j implies (#[trigger] s1[i]).line()
                != (#[trigger] s1[j]).line() by {
                if i == s0.len() as int {
                    assert(s1[j] == s0[j]);
                    assert(!holds_line(s0, line_addr));
                } else if j == s0.len() as int {
                    assert(s1[i] == s0[i]);
                    assert(!holds_line(s0, line_addr));
                } else {
                    assert(s1[i] == s0[i]);
                    assert(s1[j] == s0[j]);
                }
            }
            let want = slots_of(s0).insert(
                line_addr,
                MshrSlot { meta, ready_at: None, merged: Seq::empty() },
            );
            assert forall|l: u64| slots_of(s1).contains_key(l) <==> want.contains_key(l) by {
                if holds_line(s1, l) && l != line_addr {
                    let i = choose|i: int| 0 <= i < s1.len() && (#[trigger] s1[i]).line() == l;
                    assert(s1[i] == s0[i]);
                }
                if holds_line(s0, l) {
                    let i = choose|i: int| 0 <= i < s0.len() && (#[trigger] s0[i]).line() == l;
                    assert(s1[i] == s0[i]);
                }
                if l == line_addr {
                    assert(s1[s0.len() as int].line() == l);
                }
            }
            assert forall|l: u64| #[trigger] want.contains_key(l) implies slots_of(s1)[l] == want[l] by {
                if l == line_addr {
                    lemma_slot_at(s1, s0.len() as int);
                } else {
                    let i = choose|i: int| 0 <= i < s0.len() && (#[trigger] s0[i]).line() == l;
                    assert(s1[i] == s0[i]);
                    lemma_slot_at(s1, i);
                    lemma_slot_at(s0, i);
                }
            }
            assert(slots_of(s1) =~= want);
        }
        Ok(true)
    }

    /// Record when the fill of `line_addr` completes; no effect when the
    /// line has no entry.
    pub fn set_ready_at(&mut self, line_addr: u64, ready_at: Cycle)
        requires
            old(self).wf(),
        ensures
            final(self).wf(),
            final(self).cap() == old(self).cap(),
            final(self).count() == old(self).count(),
            old(self).table().contains_key(line_addr) ==> final(self).table() == old(
                self,
            ).table().insert(
                line_addr,
                MshrSlot { ready_at: Some(ready_at), ..old(self).table()[line_addr] },
            ),
            !old(self).table().contains_key(line_addr) ==> final(self).table() == old(
                self,
            ).table(),
    {
        match self.find(line_addr) {
            Some(i) => {
                let ghost s0 = self.entries@;
                proof {
                    lemma_slot_at(s0, i as int);
                }
                self.entries[i].ready_at = Some(ready_at);
                proof {
                    lemma_update_slot(s0, i as int, self.entries@[i as int]);
                    assert(self.entries@ == s0.update(i as int, self.entries@[i as int]));
                }
            },
            None => {},
        }
    }

    /// Merge `request` onto the entry of `line_addr`, giving it the cache
    /// outcome of the allocating miss, and return when that entry's fill
    /// completes, if known. A line without an entry drops the request and
    /// gives `None`.
    pub fn merge_request(&mut self, line_addr: u64, request: GmemRequest) -> (r: Option<Cycle>)
        requires
            old(self).wf(),
        ensures
            final(self).wf(),
            final(self).cap() == old(self).cap(),
            final(self).count() == old(self).count(),
            old(self).table().contains_key(line_addr) ==> {
                let slot = old(self).table()[line_addr];
                &&& r == slot.ready_at
                &&& final(self).table() == old(self).table().insert(
                    line_addr,
                    MshrSlot { merged: slot.merged.push(slot.meta.applied(request)), ..slot },
                )
            },
            !old(self).table().contains_key(line_addr) ==> r is None && final(self).table()
                == old(self).table(),
    {
        match self.find(line_addr) {
            Some(i) => {
                let ghost s0 = self.entries@;
                proof {
                    lemma_slot_at(s0, i as int);
                }
                let mut request = request;
                let meta = self.entries[i].meta;
                meta.apply(&mut request);
                self.entries[i].merged.push(request);
                proof {
                    lemma_update_slot(s0, i as int, self.entries@[i as int]);
                    assert(self.entries@ == s0.update(i as int, self.entries@[i as int]));
                }
                self.entries[i].ready_at
            },
            None => None,
        }
    }

    /// Release the entry of `line_addr`, handing it back with its merged
    /// requests.
    pub fn remove_entry(&mut self, line_addr: u64) -> (r: Option<MshrEntry>)
        requires
            old(self).wf(),
        ensures
            final(self).wf(),
            final(self).cap() == old(self).cap(),
            old(self).table().contains_key(line_addr) ==> (r matches Some(e) && e.line()
                == line_addr && e.slot() == old(self).table()[line_addr]) && final(self).table()
                == old(self).table().remove(line_addr) && final(self).count() == old(self).count()
                - 1,
            !old(self).table().contains_key(line_addr) ==> r is None && final(self).table()
                == old(self).table() && final(self).count() == old(self).count(),
    {
        match self.find(line_addr) {
            Some(i) => {
                let ghost s0 = self.entries@;
                proof {
                    lemma_slot_at(s0, i as int);
                    lemma_swap_remove_slot(s0, i as int);
                }
                let e = self.entries.swap_remove(i);
                proof {
                    assert(self.entries@ =~= s0.update(i as int, s0.last()).drop_last());
                }
                Some(e)
            },
            None => None,
        }
    }
}

/// Admission control in front of an MSHR: a timed server that limits how
/// many misses are accepted per cycle.
pub struct MshrAdmission {
    server: TimedServer<()>,
}

impl MshrAdmission {
    pub closed spec fn queue(&self) -> TimedServer<()> {
        self.server
    }

    pub open spec fn wf(&self) -> bool {
        self.queue().wf()
    }

    /// The server takes `config` with no base latency and no cap on
    /// completions per cycle.
    pub fn new(config: ServerConfig) -> (r: Self)
        requires
            config.valid(),
        ensures
            r.wf(),
            r.queue().cfg() == (ServerConfig {
                base_latency: 0,
                completions_per_cycle: u32::MAX,
                ..config
            }),
            r.queue().pending().len() == 0,
            r.queue().done().len() == 0,
    {
        let mut cfg = config;
        cfg.base_latency = 0;
        cfg.completions_per_cycle = u32::MAX;
        Self { server: TimedServer::new(cfg) }
    }

    /// Admit a miss at `now`: the cycle at which it may proceed, or the
    /// server's refusal.
    pub fn try_admit(&mut self, now: Cycle) -> (r: Result<Cycle, Backpressure<()>>)
        requires
            old(self).wf(),
        ensures
            final(self).wf(),
            old(self).queue().is_full() ==> r == Err::<Cycle, Backpressure<()>>(
                Backpressure::QueueFull {
                    request: ServiceRequest { payload: (), size_bytes: 0 },
                    capacity: old(self).queue().cfg().queue_capacity,
                },
            ) && old(self).queue().refused_full(&final(self).queue()),
            !old(self).queue().is_full() && old(self).queue().is_warming(now) ==> r == Err::<
                Cycle,
                Backpressure<()>,
            >(
                Backpressure::Busy {
                    request: ServiceRequest { payload: (), size_bytes: 0 },
                    available_at: old(self).queue().warmup(),
                },
            ) && old(self).queue().refused_busy(&final(self).queue()),
            !old(self).queue().is_full() && !old(self).queue().is_warming(now) ==> r == Ok::<
                Cycle,
                Backpressure<()>,
            >(old(self).queue().ready_at_for(now, 0)) && (exists|t: crate::timeq::Ticket|
                old(self).queue().accepted(&final(self).queue(), now, (), 0, t)),
    {
        let request = ServiceRequest::new((), 0);
        let ghost pre = self.queue();
        match self.server.try_enqueue(now, request) {
            Ok(ticket) => {
                proof {
                    if !pre.is_full() && !pre.is_warming(now) {
                        assert(pre.accepted(&self.queue(), now, (), 0, ticket));
                    }
                }
                Ok(ticket.ready_at())
            },
            Err(e) => Err(e),
        }
    }

    /// Retire the admissions that complete at `now`.
    pub fn tick(&mut self, now: Cycle)
        requires
            old(self).wf(),
        ensures
            final(self).wf(),
            old(self).queue().serviced(&final(self).queue(), now),
    {
        let _ = self.server.service_ready(now);
    }
}

} // verus!
