//! Layered cache topology: each cache layer pairs a tag array with banks,
//! and each bank pairs an MSHR table with its statistics.

use crate::timeflow::gmem::cache::{initial_order, CacheTagArray};
use crate::timeflow::gmem::mshr::{MissMetadata, MshrSlot, MshrTable};
use crate::timeflow::gmem::request::GmemRequest;
use crate::timeflow::gmem::stats::{merged_counters, GmemCounters, GmemStats};
use crate::timeq::{sat_add, Cycle};
use vstd::prelude::*;

verus! {

/// Counters of a fresh [`GmemStats`].
pub open spec fn zero_counters() -> GmemCounters {
    GmemCounters {
        issued: 0,
        completed: 0,
        queue_full_rejects: 0,
        busy_rejects: 0,
        bytes_issued: 0,
        bytes_completed: 0,
        accesses: 0,
        hits: 0,
        bytes_hits: 0,
        inflight: 0,
        max_inflight: 0,
        max_completion_queue: 0,
        last_completion_cycle: None,
    }
}

/// Counters accumulated from `init` by adding each of `s` in order.
pub open spec fn fold_counters(init: GmemCounters, s: Seq<GmemCounters>) -> GmemCounters
    decreases s.len(),
{
    if s.len() == 0 {
        init
    } else {
        merged_counters(fold_counters(init, s.drop_last()), s.last())
    }
}

/// A layer that holds no line and whose banks have empty MSHR tables of
/// `cap` entries and zero counters.
pub open spec fn fresh_layer(layer: CacheLayer, cap: usize) -> bool {
    &&& layer.wf()
    &&& forall|i: int| 0 <= i < layer.tags.tags_view().len() ==> (#[trigger] layer.tags.tags_view()[i]) is None
    &&& forall|i: int|
        0 <= i < layer.banks@.len() ==> (#[trigger] layer.banks@[i]).mshr.cap() == cap
            && layer.banks@[i].mshr.count() == 0 && layer.banks@[i].mshr.table() == Map::<u64, MshrSlot>::empty()
            && layer.banks@[i].stats@ == zero_counters()
}

/// Folding counters that are all zero from zero gives zero.
pub proof fn lemma_fold_zero(s: Seq<GmemCounters>)
    requires
        forall|i: int| 0 <= i < s.len() ==> #[trigger] s[i] == zero_counters(),
    ensures
        fold_counters(zero_counters(), s) == zero_counters(),
    decreases s.len(),
{
    if s.len() > 0 {
        lemma_fold_zero(s.drop_last());
        assert(s.last() == zero_counters());
    }
}

/// A fresh layer counts nothing.
pub proof fn lemma_fresh_layer_zero(layer: CacheLayer, cap: usize)
    requires
        fresh_layer(layer, cap),
    ensures
        layer.counters() == zero_counters(),
{
    let c = bank_counters(layer.banks@);
    assert forall|i: int| 0 <= i < c.len() implies #[trigger] c[i] == zero_counters() by {
        assert(layer.banks@[i].stats@ == zero_counters());
    }
    lemma_fold_zero(c);
}

/// An MSHR table with the statistics of its bank.
pub struct Bank {
    pub mshr: MshrTable,
    pub stats: GmemStats,
}

impl Bank {
    pub open spec fn wf(&self) -> bool {
        self.mshr.wf()
    }

    pub fn new(mshr_capacity: usize) -> (r: Self)
        ensures
            r.wf(),
            r.mshr.cap() == mshr_capacity,
            r.mshr.count() == 0,
            r.mshr.table() == Map::<u64, MshrSlot>::empty(),
            r.stats@ == zero_counters(),
    {
        Self { mshr: MshrTable::new(mshr_capacity), stats: GmemStats::default() }
    }
}

/// Counters of each bank of `banks`.
pub open spec fn bank_counters(banks: Seq<Bank>) -> Seq<GmemCounters> {
    Seq::new(banks.len(), |i: int| banks[i].stats@)
}

/// A cache layer: a tag array and its banks.
pub struct CacheLayer {
    pub tags: CacheTagArray,
    pub banks: Vec<Bank>,
}

impl CacheLayer {
    pub open spec fn wf(&self) -> bool {
        &&& self.tags.wf()
        &&& forall|i: int| 0 <= i < self.banks@.len() ==> (#[trigger] self.banks@[i]).wf()
    }

    /// Statistics of the layer: those of its banks added in order.
    pub open spec fn counters(&self) -> GmemCounters {
        fold_counters(zero_counters(), bank_counters(self.banks@))
    }

    /// `post` equals `self` except, possibly, in bank `b`'s MSHR table.
    pub open spec fn same_but_mshr(&self, post: &Self, b: int) -> bool {
        &&& post.wf()
        &&& post.tags == self.tags
        &&& post.banks@.len() == self.banks@.len()
        &&& forall|j: int| 0 <= j < self.banks@.len() && j != b ==> post.banks@[j] == self.banks@[j]
        &&& 0 <= b < self.banks@.len() ==> post.banks@[b].stats == self.banks@[b].stats
            && post.banks@[b].mshr.cap() == self.banks@[b].mshr.cap()
    }

    pub fn new(tags: CacheTagArray, num_banks: usize, mshr_capacity: usize) -> (r: Self)
        requires
            tags.wf(),
        ensures
            r.wf(),
            r.tags == tags,
            r.banks@.len() == num_banks,
            forall|i: int|
                0 <= i < num_banks ==> (#[trigger] r.banks@[i]).mshr.cap() == mshr_capacity
                    && r.banks@[i].mshr.count() == 0 && r.banks@[i].mshr.table() == Map::<
                    u64,
                    MshrSlot,
                >::empty() && r.banks@[i].stats@ == zero_counters(),
    {
        let mut banks: Vec<Bank> = Vec::new();
        let mut i: usize = 0;
        while i < num_banks
            invariant
                i <= num_banks,
                banks@.len() == i,
                forall|k: int|
                    0 <= k < i ==> (#[trigger] banks@[k]).wf() && banks@[k].mshr.cap()
                        == mshr_capacity && banks@[k].mshr.count() == 0
                        && banks@[k].mshr.table() == Map::<u64, MshrSlot>::empty()
                        && banks@[k].stats@ == zero_counters(),
            decreases num_banks - i,
        {
            banks.push(Bank::new(mshr_capacity));
            i = i + 1;
        }
        Self { tags, banks }
    }

    pub fn bank_count(&self) -> (r: usize)
        ensures
            r == self.banks@.len(),
    {
        self.banks.len()
    }

    pub fn probe(&mut self, line: u64) -> (r: bool)
        requires
            old(self).wf(),
        ensures
            final(self).wf(),
            old(self).tags.probed(&final(self).tags, line, r),
            final(self).banks == old(self).banks,
    {
        self.tags.probe(line)
    }

    /// Bank `bank_idx` tracks a miss to `line`; `false` for a bank that does
    /// not exist.
    pub fn has_entry(&self, bank_idx: usize, line: u64) -> (r: bool)
        requires
            self.wf(),
        ensures
            r == (bank_idx < self.banks@.len() && self.banks@[bank_idx as int].mshr.table().contains_key(
                line,
            )),
    {
        if bank_idx >= self.bank_count() {
            return false;
        }
        self.banks[bank_idx].mshr.has_entry(line)
    }

    /// Merge `req` onto the miss to `line` tracked by bank `bank_idx`.
    pub fn merge_request(&mut self, bank_idx: usize, line: u64, req: GmemRequest) -> (r: Option<
        Cycle,
    >)
        requires
            old(self).wf(),
        ensures
            old(self).same_but_mshr(final(self), bank_idx as int),
            bank_idx >= old(self).banks@.len() ==> r is None && final(self).banks == old(
                self,
            ).banks,
            bank_idx < old(self).banks@.len() ==> ({
                let t = old(self).banks@[bank_idx as int].mshr.table();
                let t2 = final(self).banks@[bank_idx as int].mshr.table();
                &&& t.contains_key(line) ==> r == t[line].ready_at && t2 == t.insert(
                    line,
                    MshrSlot { merged: t[line].merged.push(t[line].meta.applied(req)), ..t[line] },
                )
                &&& !t.contains_key(line) ==> r is None && t2 == t
            }),
    {
        if bank_idx >= self.bank_count() {
            return None;
        }
        let mut bank = self.take_bank(bank_idx);
        let r = bank.mshr.merge_request(line, req);
        self.put_bank(bank_idx, bank);
        r
    }

    /// Bank `bank_idx` can track a miss to `line`; `false` for a bank that
    /// does not exist.
    pub fn can_allocate(&self, bank_idx: usize, line: u64) -> (r: bool)
        requires
            self.wf(),
        ensures
            r == (bank_idx < self.banks@.len() && ({
                let m = self.banks@[bank_idx as int].mshr;
                m.table().contains_key(line) || m.count() < m.cap()
            })),
    {
        if bank_idx >= self.bank_count() {
            return false;
        }
        self.banks[bank_idx].mshr.can_allocate(line)
    }

    /// Allocate an MSHR entry for `line` in bank `bank_idx`: `Err` for a
    /// bank that does not exist or a full table.
    pub fn ensure_entry(&mut self, bank_idx: usize, line: u64, meta: MissMetadata) -> (r: Result<
        bool,
        (),
    >)
        requires
            old(self).wf(),
        ensures
            old(self).same_but_mshr(final(self), bank_idx as int),
            bank_idx >= old(self).banks@.len() ==> r == Err::<bool, ()>(()) && final(self).banks
                == old(self).banks,
            bank_idx < old(self).banks@.len() ==> ({
                let m = old(self).banks@[bank_idx as int].mshr;
                let m2 = final(self).banks@[bank_idx as int].mshr;
                &&& m.table().contains_key(line) ==> r == Ok::<bool, ()>(false) && m2.table()
                    == m.table() && m2.count() == m.count()
                &&& !m.table().contains_key(line) && m.count() >= m.cap() ==> r == Err::<
                    bool,
                    (),
                >(()) && m2.table() == m.table() && m2.count() == m.count()
                &&& !m.table().contains_key(line) && m.count() < m.cap() ==> r == Ok::<bool, ()>(
                    true,
                ) && m2.table() == m.table().insert(
                    line,
                    MshrSlot { meta, ready_at: None, merged: Seq::empty() },
                ) && m2.count() == m.count() + 1
            }),
    {
        if bank_idx >= self.bank_count() {
            return Err(());
        }
        let mut bank = self.take_bank(bank_idx);
        let r = match bank.mshr.ensure_entry(line, meta) {
            Ok(v) => Ok(v),
            Err(_) => Err(()),
        };
        self.put_bank(bank_idx, bank);
        r
    }

    /// Record when the fill of `line` in bank `bank_idx` completes.
    pub fn set_ready_at(&mut self, bank_idx: usize, line: u64, at: Cycle)
        requires
            old(self).wf(),
        ensures
            old(self).same_but_mshr(final(self), bank_idx as int),
            bank_idx >= old(self).banks@.len() ==> final(self).banks == old(self).banks,
            bank_idx < old(self).banks@.len() ==> ({
                let m = old(self).banks@[bank_idx as int].mshr;
                let m2 = final(self).banks@[bank_idx as int].mshr;
                &&& m2.count() == m.count()
                &&& m.table().contains_key(line) ==> m2.table() == m.table().insert(
                    line,
                    MshrSlot { ready_at: Some(at), ..m.table()[line] },
                )
                &&& !m.table().contains_key(line) ==> m2.table() == m.table()
            }),
    {
        if bank_idx >= self.bank_count() {
            return ;
        }
        let mut bank = self.take_bank(bank_idx);
        bank.mshr.set_ready_at(line, at);
        self.put_bank(bank_idx, bank);
    }

    /// Release the MSHR entry of `line` in bank `bank_idx` and hand back the
    /// requests merged onto it (none when there is no such entry).
    pub fn remove_entry_merged(&mut self, bank_idx: usize, line: u64) -> (r: Vec<GmemRequest>)
        requires
            old(self).wf(),
        ensures
            old(self).same_but_mshr(final(self), bank_idx as int),
            bank_idx >= old(self).banks@.len() ==> r@.len() == 0 && final(self).banks == old(
                self,
            ).banks,
            bank_idx < old(self).banks@.len() ==> ({
                let m = old(self).banks@[bank_idx as int].mshr;
                let m2 = final(self).banks@[bank_idx as int].mshr;
                &&& m.table().contains_key(line) ==> r@ == m.table()[line].merged && m2.table()
                    == m.table().remove(line) && m2.count() == m.count() - 1
                &&& !m.table().contains_key(line) ==> r@.len() == 0 && m2.table() == m.table()
                    && m2.count() == m.count()
            }),
    {
        if bank_idx >= self.bank_count() {
            return Vec::new();
        }
        let mut bank = self.take_bank(bank_idx);
        let r = match bank.mshr.remove_entry(line) {
            Some(entry) => entry.into_merged(),
            None => Vec::new(),
        };
        self.put_bank(bank_idx, bank);
        r
    }

    /// Count an access of `bytes` bytes at bank `bank_idx` (and a hit when
    /// `hit`); nothing for a bank the layer lacks.
    pub fn record_access(&mut self, bank_idx: usize, bytes: u32, hit: bool)
        requires
            old(self).wf(),
        ensures
            final(self).wf(),
            final(self).tags == old(self).tags,
            final(self).banks@.len() == old(self).banks@.len(),
            forall|j: int|
                0 <= j < old(self).banks@.len() && j != bank_idx ==> #[trigger] final(self).banks@[j]
                    == old(self).banks@[j],
            bank_idx < old(self).banks@.len() ==> {
                let b = old(self).banks@[bank_idx as int];
                let b2 = final(self).banks@[bank_idx as int];
                &&& b2.mshr == b.mshr
                &&& b2.stats@ == access_counted(b.stats@, bytes, hit)
            },
    {
        if bank_idx >= self.bank_count() {
            return;
        }
        let mut bank = self.take_bank(bank_idx);
        bank.stats.record_access(bytes);
        if hit {
            bank.stats.record_hit(bytes);
        }
        self.put_bank(bank_idx, bank);
    }

    /// Count a request refused for want of an MSHR entry at bank `bank_idx`.
    pub fn record_queue_full_reject(&mut self, bank_idx: usize)
        requires
            old(self).wf(),
        ensures
            final(self).wf(),
            final(self).tags == old(self).tags,
            final(self).banks@.len() == old(self).banks@.len(),
            forall|j: int|
                0 <= j < old(self).banks@.len() && j != bank_idx ==> #[trigger] final(self).banks@[j]
                    == old(self).banks@[j],
            bank_idx < old(self).banks@.len() ==> {
                let b = old(self).banks@[bank_idx as int];
                let b2 = final(self).banks@[bank_idx as int];
                &&& b2.mshr == b.mshr
                &&& b2.stats@ == b.stats@.after_queue_full()
            },
    {
        if bank_idx >= self.bank_count() {
            return;
        }
        let mut bank = self.take_bank(bank_idx);
        bank.stats.record_queue_full_reject();
        self.put_bank(bank_idx, bank);
    }

    /// Count a completion of `bytes` bytes at `now` at bank `bank_idx`.
    pub fn record_completion(&mut self, bank_idx: usize, bytes: u32, now: Cycle)
        requires
            old(self).wf(),
        ensures
            final(self).wf(),
            final(self).tags == old(self).tags,
            final(self).banks@.len() == old(self).banks@.len(),
            forall|j: int|
                0 <= j < old(self).banks@.len() && j != bank_idx ==> #[trigger] final(self).banks@[j]
                    == old(self).banks@[j],
            bank_idx < old(self).banks@.len() ==> {
                let b = old(self).banks@[bank_idx as int];
                let b2 = final(self).banks@[bank_idx as int];
                &&& b2.mshr == b.mshr
                &&& b2.stats@ == b.stats@.after_completion(bytes, now)
            },
    {
        if bank_idx >= self.bank_count() {
            return;
        }
        let mut bank = self.take_bank(bank_idx);
        bank.stats.record_completion(bytes, now);
        self.put_bank(bank_idx, bank);
    }

    /// Take bank `bank_idx` out, leaving an empty bank in its place.
    fn take_bank(&mut self, bank_idx: usize) -> (r: Bank)
        requires
            old(self).wf(),
            bank_idx < old(self).banks@.len(),
        ensures
            r == old(self).banks@[bank_idx as int],
            r.wf(),
            final(self).tags == old(self).tags,
            final(self).banks@.len() == old(self).banks@.len(),
            forall|j: int|
                0 <= j < old(self).banks@.len() && j != bank_idx ==> final(self).banks@[j] == old(
                    self,
                ).banks@[j],
    {
        let mut out = Bank::new(0);
        std::mem::swap(&mut out, &mut self.banks[bank_idx]);
        out
    }

    /// Put `bank` back at `bank_idx`.
    fn put_bank(&mut self, bank_idx: usize, bank: Bank)
        requires
            old(self).tags.wf(),
            bank_idx < old(self).banks@.len(),
            bank.wf(),
            forall|j: int|
                0 <= j < old(self).banks@.len() && j != bank_idx ==> (#[trigger] old(
                    self,
                ).banks@[j]).wf(),
        ensures
            final(self).wf(),
            final(self).tags == old(self).tags,
            final(self).banks@ == old(self).banks@.update(bank_idx as int, bank),
    {
        self.banks.set(bank_idx, bank);
    }

    /// Statistics of the layer: the sum of those of its banks.
    pub fn stats(&self) -> (r: GmemStats)
        ensures
            r@ == self.counters(),
    {
        let mut s = GmemStats::default();
        let mut i: usize = 0;
        while i < self.banks.len()
            invariant
                i <= self.banks@.len(),
                s@ == fold_counters(zero_counters(), bank_counters(self.banks@).take(i as int)),
            decreases self.banks@.len() - i,
        {
            proof {
                let c = bank_counters(self.banks@);
                assert(c.take(i as int + 1).drop_last() =~= c.take(i as int));
            }
            s.accumulate_from(&self.banks[i].stats);
            i = i + 1;
        }
        proof {
            assert(bank_counters(self.banks@).take(i as int) =~= bank_counters(self.banks@));
        }
        s
    }
}

/// Counters of each layer of `layers`.
pub open spec fn layer_counters(layers: Seq<CacheLayer>) -> Seq<GmemCounters> {
    Seq::new(layers.len(), |i: int| layers[i].counters())
}

/// The cache hierarchy: per-core L0 layers, per-cluster L1 layers and a
/// shared L2.
pub struct GmemHierarchy {
    pub l0: Vec<CacheLayer>,
    pub l1: Vec<CacheLayer>,
    pub l2: CacheLayer,
}

/// `c` after an access of `bytes` bytes, counted as a hit when `hit`.
pub open spec fn access_counted(c: GmemCounters, bytes: u32, hit: bool) -> GmemCounters {
    let a = GmemCounters { accesses: sat_add(c.accesses as int, 1), ..c };
    if hit {
        GmemCounters {
            hits: sat_add(a.hits as int, 1),
            bytes_hits: sat_add(a.bytes_hits as int, bytes as int),
            ..a
        }
    } else {
        a
    }
}

/// Every layer of `s` is well formed.
pub open spec fn layers_wf(s: Seq<CacheLayer>) -> bool {
    forall|i: int| 0 <= i < s.len() ==> (#[trigger] s[i]).wf()
}

/// A layer of the hierarchy: the L0 of a core, the L1 of a cluster, or L2.
#[derive(Debug, Clone, Copy)]
pub enum LayerSel {
    L0(usize),
    L1(usize),
    L2,
}

/// `t2` holds the lines `t` holds, in the same places.
pub open spec fn same_lines(t2: CacheTagArray, t: CacheTagArray) -> bool {
    &&& t2.tags_view() == t.tags_view()
    &&& t2.n_sets() == t.n_sets()
    &&& t2.n_ways() == t.n_ways()
}

/// A step that changes only layer `sel`, and keeps its lines, keeps the
/// lines of every layer.
proof fn lemma_lines_step(h: GmemHierarchy, h2: GmemHierarchy, sel: LayerSel)
    requires
        h.changed_only(&h2, sel),
        h.has_layer(sel) ==> same_lines(h2.layer(sel).tags, h.layer(sel).tags),
    ensures
        h.lines_kept(&h2),
{
    assert forall|s2: LayerSel| h.has_layer(s2) implies same_lines(#[trigger] h2.layer(s2).tags, h.layer(s2).tags) by {
        match s2 {
            LayerSel::L0(j) => {
                if s2 != sel {
                    assert(h2.l0@[j as int] == h.l0@[j as int]);
                }
            },
            LayerSel::L1(j) => {
                if s2 != sel {
                    assert(h2.l1@[j as int] == h.l1@[j as int]);
                }
            },
            LayerSel::L2 => {},
        }
    }
}

impl GmemHierarchy {
    /// The caches of `post` hold the lines of those of `self`, layer by
    /// layer.
    pub open spec fn lines_kept(&self, post: &Self) -> bool {
        &&& post.l0@.len() == self.l0@.len()
        &&& post.l1@.len() == self.l1@.len()
        &&& forall|sel: LayerSel| self.has_layer(sel) ==> same_lines(#[trigger] post.layer(sel).tags, self.layer(sel).tags)
    }

    pub open spec fn wf(&self) -> bool {
        &&& layers_wf(self.l0@)
        &&& layers_wf(self.l1@)
        &&& self.l2.wf()
    }

    /// The layers exist in the same numbers in `self` and `post`.
    pub open spec fn same_layers(&self, post: &Self) -> bool {
        &&& post.wf()
        &&& post.l0@.len() == self.l0@.len()
        &&& post.l1@.len() == self.l1@.len()
    }

    /// Layer `sel` (meaningful when it exists).
    pub open spec fn layer(&self, sel: LayerSel) -> CacheLayer {
        match sel {
            LayerSel::L0(i) => self.l0@[i as int],
            LayerSel::L1(i) => self.l1@[i as int],
            LayerSel::L2 => self.l2,
        }
    }

    /// `post` has the same layers as `self`, all equal but layer `sel`.
    pub open spec fn changed_only(&self, post: &Self, sel: LayerSel) -> bool {
        &&& self.same_layers(post)
        &&& forall|j: int|
            0 <= j < self.l0@.len() && sel != LayerSel::L0(j as usize) ==> #[trigger] post.l0@[j]
                == self.l0@[j]
        &&& forall|j: int|
            0 <= j < self.l1@.len() && sel != LayerSel::L1(j as usize) ==> #[trigger] post.l1@[j]
                == self.l1@[j]
        &&& sel != LayerSel::L2 ==> post.l2 == self.l2
    }

    /// Layer `sel` exists.
    pub open spec fn has_layer(&self, sel: LayerSel) -> bool {
        match sel {
            LayerSel::L0(i) => i < self.l0@.len(),
            LayerSel::L1(i) => i < self.l1@.len(),
            LayerSel::L2 => true,
        }
    }

    /// Take layer `sel` out, leaving an empty layer in its place.
    fn take_layer(&mut self, sel: LayerSel) -> (r: CacheLayer)
        requires
            old(self).wf(),
            old(self).has_layer(sel),
        ensures
            r.wf(),
            final(self).l0@.len() == old(self).l0@.len(),
            final(self).l1@.len() == old(self).l1@.len(),
            match sel {
                LayerSel::L0(i) => final(self).l1 == old(self).l1 && final(self).l2 == old(self).l2
                    && r == old(self).l0@[i as int] && forall|j: int|
                    0 <= j < old(self).l0@.len() && j != i ==> final(self).l0@[j] == old(self).l0@[j],
                LayerSel::L1(i) => final(self).l0 == old(self).l0 && final(self).l2 == old(self).l2
                    && r == old(self).l1@[i as int] && forall|j: int|
                    0 <= j < old(self).l1@.len() && j != i ==> final(self).l1@[j] == old(self).l1@[j],
                LayerSel::L2 => final(self).l0 == old(self).l0 && final(self).l1 == old(self).l1
                    && r == old(self).l2,
            },
    {
        let mut out = CacheLayer { tags: CacheTagArray::new(1, 1), banks: Vec::new() };
        match sel {
            LayerSel::L0(i) => {
                assert(self.l0@[i as int].wf());
                std::mem::swap(&mut out, &mut self.l0[i]);
            },
            LayerSel::L1(i) => {
                assert(self.l1@[i as int].wf());
                std::mem::swap(&mut out, &mut self.l1[i]);
            },
            LayerSel::L2 => {
                std::mem::swap(&mut out, &mut self.l2);
            },
        }
        out
    }

    /// Put `layer` back as layer `sel`.
    fn put_layer(&mut self, sel: LayerSel, layer: CacheLayer)
        requires
            old(self).has_layer(sel),
            layer.wf(),
            match sel {
                LayerSel::L0(i) => layers_wf(old(self).l1@) && old(self).l2.wf() && forall|j: int|
                    0 <= j < old(self).l0@.len() && j != i ==> (#[trigger] old(self).l0@[j]).wf(),
                LayerSel::L1(i) => layers_wf(old(self).l0@) && old(self).l2.wf() && forall|j: int|
                    0 <= j < old(self).l1@.len() && j != i ==> (#[trigger] old(self).l1@[j]).wf(),
                LayerSel::L2 => layers_wf(old(self).l0@) && layers_wf(old(self).l1@),
            },
        ensures
            final(self).wf(),
            final(self).l0@.len() == old(self).l0@.len(),
            final(self).l1@.len() == old(self).l1@.len(),
            match sel {
                LayerSel::L0(i) => final(self).l0@ == old(self).l0@.update(i as int, layer)
                    && final(self).l1 == old(self).l1 && final(self).l2 == old(self).l2,
                LayerSel::L1(i) => final(self).l1@ == old(self).l1@.update(i as int, layer)
                    && final(self).l0 == old(self).l0 && final(self).l2 == old(self).l2,
                LayerSel::L2 => final(self).l0 == old(self).l0 && final(self).l1 == old(self).l1
                    && final(self).l2 == layer,
            },
    {
        match sel {
            LayerSel::L0(i) => {
                self.l0.set(i, layer);
            },
            LayerSel::L1(i) => {
                self.l1.set(i, layer);
            },
            LayerSel::L2 => {
                self.l2 = layer;
            },
        }
    }

    /// Probe the tags of layer `sel` (a miss for a missing layer).
    pub fn probe(&mut self, sel: LayerSel, line: u64) -> (r: bool)
        requires
            old(self).wf(),
        ensures
            old(self).lines_kept(final(self)),
            old(self).changed_only(final(self), sel),
            !old(self).has_layer(sel) ==> *final(self) == *old(self) && !r,
            old(self).has_layer(sel) ==> {
                &&& final(self).layer(sel).wf()
                &&& old(self).layer(sel).tags.probed(&final(self).layer(sel).tags, line, r)
                &&& final(self).layer(sel).banks == old(self).layer(sel).banks
            },
    {
        if !self.has(sel) {
            return false;
        }
        let mut layer = self.take_layer(sel);
        let r = layer.probe(line);
        self.put_layer(sel, layer);
        proof {
            lemma_lines_step(*old(self), *self, sel);
        }
        r
    }

    /// Fill `line` into the tags of layer `sel`.
    pub fn fill(&mut self, sel: LayerSel, line: u64)
        requires
            old(self).wf(),
        ensures
            old(self).changed_only(final(self), sel),
            !old(self).has_layer(sel) ==> *final(self) == *old(self),
            old(self).has_layer(sel) ==> {
                &&& old(self).layer(sel).tags.filled(&final(self).layer(sel).tags, line)
                &&& final(self).layer(sel).banks == old(self).layer(sel).banks
            },
    {
        if !self.has(sel) {
            return;
        }
        let mut layer = self.take_layer(sel);
        layer.tags.fill(line);
        self.put_layer(sel, layer);
    }

    /// Invalidate every tag of layer `sel`.
    pub fn invalidate_all(&mut self, sel: LayerSel)
        requires
            old(self).wf(),
        ensures
            old(self).changed_only(final(self), sel),
            !old(self).has_layer(sel) ==> *final(self) == *old(self),
            old(self).has_layer(sel) ==> {
                &&& final(self).layer(sel).banks == old(self).layer(sel).banks
                &&& final(self).layer(sel).tags.wf()
                &&& final(self).layer(sel).tags.n_sets() == old(self).layer(sel).tags.n_sets()
                &&& final(self).layer(sel).tags.n_ways() == old(self).layer(sel).tags.n_ways()
                &&& forall|i: int|
                    0 <= i < final(self).layer(sel).tags.tags_view().len() ==> (#[trigger] final(self).layer(sel).tags.tags_view()[i]) is None
                &&& forall|s: int|
                    0 <= s < final(self).layer(sel).tags.n_sets() ==> #[trigger] final(self).layer(sel).tags.orders()[s]
                        == initial_order(final(self).layer(sel).tags.n_ways())
            },
    {
        if !self.has(sel) {
            return;
        }
        let mut layer = self.take_layer(sel);
        layer.tags.invalidate_all();
        self.put_layer(sel, layer);
    }

    /// Number of banks of layer `sel` (none for a missing layer).
    pub fn bank_count(&self, sel: LayerSel) -> (r: usize)
        ensures
            !self.has_layer(sel) ==> r == 0,
            self.has_layer(sel) ==> r == self.layer(sel).banks@.len(),
    {
        match sel {
            LayerSel::L0(i) => if i < self.l0.len() {
                self.l0[i].bank_count()
            } else {
                0
            },
            LayerSel::L1(i) => if i < self.l1.len() {
                self.l1[i].bank_count()
            } else {
                0
            },
            LayerSel::L2 => self.l2.bank_count(),
        }
    }

    /// Whether layer `sel` has an MSHR entry for `line` at bank `bank`.
    pub fn has_entry(&self, sel: LayerSel, bank: usize, line: u64) -> (r: bool)
        requires
            self.wf(),
        ensures
            r == (self.has_layer(sel) && bank < self.layer(sel).banks@.len() && self.layer(
                sel,
            ).banks@[bank as int].mshr.table().contains_key(line)),
    {
        match sel {
            LayerSel::L0(i) => i < self.l0.len() && self.l0[i].has_entry(bank, line),
            LayerSel::L1(i) => i < self.l1.len() && self.l1[i].has_entry(bank, line),
            LayerSel::L2 => self.l2.has_entry(bank, line),
        }
    }

    /// Whether layer `sel` could allocate an MSHR entry for `line` at bank
    /// `bank`.
    pub fn can_allocate(&self, sel: LayerSel, bank: usize, line: u64) -> (r: bool)
        requires
            self.wf(),
        ensures
            r == (self.has_layer(sel) && bank < self.layer(sel).banks@.len() && ({
                let m = self.layer(sel).banks@[bank as int].mshr;
                m.table().contains_key(line) || m.count() < m.cap()
            })),
    {
        match sel {
            LayerSel::L0(i) => i < self.l0.len() && self.l0[i].can_allocate(bank, line),
            LayerSel::L1(i) => i < self.l1.len() && self.l1[i].can_allocate(bank, line),
            LayerSel::L2 => self.l2.can_allocate(bank, line),
        }
    }

    /// Merge `req` into the MSHR entry of `line` at bank `bank` of layer
    /// `sel`; the entry's ready cycle, if it has one.
    pub fn merge_request(&mut self, sel: LayerSel, bank: usize, line: u64, req: GmemRequest) -> (r: Option<Cycle>)
        requires
            old(self).wf(),
        ensures
            old(self).lines_kept(final(self)),
            old(self).changed_only(final(self), sel),
            !old(self).has_layer(sel) ==> *final(self) == *old(self) && r is None,
            old(self).has_layer(sel) ==> {
                &&& old(self).layer(sel).same_but_mshr(&final(self).layer(sel), bank as int)
                &&& bank >= old(self).layer(sel).banks@.len() ==> r is None && final(self).layer(sel).banks == old(self).layer(sel).banks
                &&& bank < old(self).layer(sel).banks@.len() ==> ({
                    let t = old(self).layer(sel).banks@[bank as int].mshr.table();
                    let t2 = final(self).layer(sel).banks@[bank as int].mshr.table();
                    &&& t.contains_key(line) ==> r == t[line].ready_at && t2 == t.insert(
                        line,
                        MshrSlot { merged: t[line].merged.push(t[line].meta.applied(req)), ..t[line] },
                    )
                    &&& !t.contains_key(line) ==> r is None && t2 == t
                })
            },
    {
        if !self.has(sel) {
            return None;
        }
        let mut layer = self.take_layer(sel);
        let r = layer.merge_request(bank, line, req);
        self.put_layer(sel, layer);
        proof {
            lemma_lines_step(*old(self), *self, sel);
        }
        r
    }

    /// Make sure layer `sel` has an MSHR entry for `line` at bank `bank`:
    /// whether a new one was made, or an error when there is no room.
    pub fn ensure_entry(&mut self, sel: LayerSel, bank: usize, line: u64, meta: MissMetadata) -> (r: Result<bool, ()>)
        requires
            old(self).wf(),
        ensures
            old(self).lines_kept(final(self)),
            old(self).changed_only(final(self), sel),
            !old(self).has_layer(sel) ==> *final(self) == *old(self) && r == Err::<bool, ()>(()),
            old(self).has_layer(sel) ==> {
                &&& old(self).layer(sel).same_but_mshr(&final(self).layer(sel), bank as int)
                &&& bank >= old(self).layer(sel).banks@.len() ==> r == Err::<bool, ()>(()) && final(self).layer(sel).banks
                    == old(self).layer(sel).banks
                &&& bank < old(self).layer(sel).banks@.len() ==> ({
                    let m = old(self).layer(sel).banks@[bank as int].mshr;
                    let m2 = final(self).layer(sel).banks@[bank as int].mshr;
                    &&& m.table().contains_key(line) ==> r == Ok::<bool, ()>(false) && m2.table()
                        == m.table() && m2.count() == m.count()
                    &&& !m.table().contains_key(line) && m.count() >= m.cap() ==> r == Err::<
                        bool,
                        (),
                    >(()) && m2.table() == m.table() && m2.count() == m.count()
                    &&& !m.table().contains_key(line) && m.count() < m.cap() ==> r == Ok::<bool, ()>(
                        true,
                    ) && m2.table() == m.table().insert(
                        line,
                        MshrSlot { meta, ready_at: None, merged: Seq::empty() },
                    ) && m2.count() == m.count() + 1
                })
            },
    {
        if !self.has(sel) {
            return Err(());
        }
        let mut layer = self.take_layer(sel);
        let r = layer.ensure_entry(bank, line, meta);
        self.put_layer(sel, layer);
        proof {
            lemma_lines_step(*old(self), *self, sel);
        }
        r
    }

    /// Record when the fill of `line` at bank `bank` of layer `sel`
    /// completes.
    pub fn set_ready_at(&mut self, sel: LayerSel, bank: usize, line: u64, at: Cycle)
        requires
            old(self).wf(),
        ensures
            old(self).lines_kept(final(self)),
            old(self).changed_only(final(self), sel),
            !old(self).has_layer(sel) ==> *final(self) == *old(self),
            old(self).has_layer(sel) ==> {
                &&& old(self).layer(sel).same_but_mshr(&final(self).layer(sel), bank as int)
                &&& bank >= old(self).layer(sel).banks@.len() ==> final(self).layer(sel).banks == old(self).layer(sel).banks
                &&& bank < old(self).layer(sel).banks@.len() ==> ({
                    let m = old(self).layer(sel).banks@[bank as int].mshr;
                    let m2 = final(self).layer(sel).banks@[bank as int].mshr;
                    &&& m2.count() == m.count()
                    &&& m.table().contains_key(line) ==> m2.table() == m.table().insert(
                        line,
                        MshrSlot { ready_at: Some(at), ..m.table()[line] },
                    )
                    &&& !m.table().contains_key(line) ==> m2.table() == m.table()
                })
            },
    {
        if !self.has(sel) {
            return;
        }
        let mut layer = self.take_layer(sel);
        layer.set_ready_at(bank, line, at);
        self.put_layer(sel, layer);
        proof {
            lemma_lines_step(*old(self), *self, sel);
        }
    }

    /// Remove the MSHR entry of `line` at bank `bank` of layer `sel`,
    /// returning the requests merged into it.
    pub fn remove_entry_merged(&mut self, sel: LayerSel, bank: usize, line: u64) -> (r: Vec<GmemRequest>)
        requires
            old(self).wf(),
        ensures
            old(self).lines_kept(final(self)),
            old(self).changed_only(final(self), sel),
            !old(self).has_layer(sel) ==> *final(self) == *old(self) && r@.len() == 0,
            old(self).has_layer(sel) ==> {
                &&& old(self).layer(sel).same_but_mshr(&final(self).layer(sel), bank as int)
                &&& bank >= old(self).layer(sel).banks@.len() ==> r@.len() == 0 && final(self).layer(sel).banks == old(self).layer(sel).banks
                &&& bank < old(self).layer(sel).banks@.len() ==> ({
                    let m = old(self).layer(sel).banks@[bank as int].mshr;
                    let m2 = final(self).layer(sel).banks@[bank as int].mshr;
                    &&& m.table().contains_key(line) ==> r@ == m.table()[line].merged && m2.table()
                        == m.table().remove(line) && m2.count() == m.count() - 1
                    &&& !m.table().contains_key(line) ==> r@.len() == 0 && m2.table() == m.table()
                        && m2.count() == m.count()
                })
            },
    {
        if !self.has(sel) {
            return Vec::new();
        }
        let mut layer = self.take_layer(sel);
        let r = layer.remove_entry_merged(bank, line);
        self.put_layer(sel, layer);
        proof {
            lemma_lines_step(*old(self), *self, sel);
        }
        r
    }

    /// Count an access (and a hit) at bank `bank` of layer `sel`.
    pub fn record_access(&mut self, sel: LayerSel, bank: usize, bytes: u32, hit: bool)
        requires
            old(self).wf(),
        ensures
            old(self).lines_kept(final(self)),
            old(self).changed_only(final(self), sel),
            !old(self).has_layer(sel) ==> *final(self) == *old(self),
            old(self).has_layer(sel) ==> {
                &&& final(self).layer(sel).wf()
                &&& final(self).layer(sel).tags == old(self).layer(sel).tags
                &&& final(self).layer(sel).banks@.len() == old(self).layer(sel).banks@.len()
                &&& forall|j: int|
                    0 <= j < old(self).layer(sel).banks@.len() && j != bank ==> #[trigger] final(self).layer(sel).banks@[j]
                        == old(self).layer(sel).banks@[j]
                &&& bank < old(self).layer(sel).banks@.len() ==> {
                    let b = old(self).layer(sel).banks@[bank as int];
                    let b2 = final(self).layer(sel).banks@[bank as int];
                    &&& b2.mshr == b.mshr
                    &&& b2.stats@ == access_counted(b.stats@, bytes, hit)
                }
            },
    {
        if !self.has(sel) {
            return;
        }
        let mut layer = self.take_layer(sel);
        layer.record_access(bank, bytes, hit);
        self.put_layer(sel, layer);
        proof {
            lemma_lines_step(*old(self), *self, sel);
        }
    }

    /// Count a refusal for want of an MSHR entry at bank `bank` of layer
    /// `sel`.
    pub fn record_queue_full_reject(&mut self, sel: LayerSel, bank: usize)
        requires
            old(self).wf(),
        ensures
            old(self).lines_kept(final(self)),
            old(self).changed_only(final(self), sel),
            !old(self).has_layer(sel) ==> *final(self) == *old(self),
            old(self).has_layer(sel) ==> {
                &&& final(self).layer(sel).wf()
                &&& final(self).layer(sel).tags == old(self).layer(sel).tags
                &&& final(self).layer(sel).banks@.len() == old(self).layer(sel).banks@.len()
                &&& forall|j: int|
                    0 <= j < old(self).layer(sel).banks@.len() && j != bank ==> #[trigger] final(self).layer(sel).banks@[j]
                        == old(self).layer(sel).banks@[j]
                &&& bank < old(self).layer(sel).banks@.len() ==> {
                    let b = old(self).layer(sel).banks@[bank as int];
                    let b2 = final(self).layer(sel).banks@[bank as int];
                    &&& b2.mshr == b.mshr
                    &&& b2.stats@ == b.stats@.after_queue_full()
                }
            },
    {
        if !self.has(sel) {
            return;
        }
        let mut layer = self.take_layer(sel);
        layer.record_queue_full_reject(bank);
        self.put_layer(sel, layer);
        proof {
            lemma_lines_step(*old(self), *self, sel);
        }
    }

    /// Count a completion at bank `bank` of layer `sel`.
    pub fn record_completion(&mut self, sel: LayerSel, bank: usize, bytes: u32, now: Cycle)
        requires
            old(self).wf(),
        ensures
            old(self).lines_kept(final(self)),
            old(self).changed_only(final(self), sel),
            !old(self).has_layer(sel) ==> *final(self) == *old(self),
            old(self).has_layer(sel) ==> {
                &&& final(self).layer(sel).wf()
                &&& final(self).layer(sel).tags == old(self).layer(sel).tags
                &&& final(self).layer(sel).banks@.len() == old(self).layer(sel).banks@.len()
                &&& forall|j: int|
                    0 <= j < old(self).layer(sel).banks@.len() && j != bank ==> #[trigger] final(self).layer(sel).banks@[j]
                        == old(self).layer(sel).banks@[j]
                &&& bank < old(self).layer(sel).banks@.len() ==> {
                    let b = old(self).layer(sel).banks@[bank as int];
                    let b2 = final(self).layer(sel).banks@[bank as int];
                    &&& b2.mshr == b.mshr
                    &&& b2.stats@ == b.stats@.after_completion(bytes, now)
                }
            },
    {
        if !self.has(sel) {
            return;
        }
        let mut layer = self.take_layer(sel);
        layer.record_completion(bank, bytes, now);
        self.put_layer(sel, layer);
        proof {
            lemma_lines_step(*old(self), *self, sel);
        }
    }

    fn has(&self, sel: LayerSel) -> (r: bool)
        ensures
            r == self.has_layer(sel),
    {
        match sel {
            LayerSel::L0(i) => i < self.l0.len(),
            LayerSel::L1(i) => i < self.l1.len(),
            LayerSel::L2 => true,
        }
    }

    pub fn new(l0: Vec<CacheLayer>, l1: Vec<CacheLayer>, l2: CacheLayer) -> (r: Self)
        ensures
            r.l0 == l0,
            r.l1 == l1,
            r.l2 == l2,
    {
        Self { l0, l1, l2 }
    }

    fn add_layers(s: &mut GmemStats, layers: &Vec<CacheLayer>)
        ensures
            final(s)@ == fold_counters(old(s)@, layer_counters(layers@)),
    {
        let ghost init = s@;
        let mut i: usize = 0;
        while i < layers.len()
            invariant
                i <= layers@.len(),
                s@ == fold_counters(init, layer_counters(layers@).take(i as int)),
            decreases layers@.len() - i,
        {
            proof {
                let c = layer_counters(layers@);
                assert(c.take(i as int + 1).drop_last() =~= c.take(i as int));
            }
            let st = layers[i].stats();
            s.accumulate_from(&st);
            i = i + 1;
        }
        proof {
            assert(layer_counters(layers@).take(i as int) =~= layer_counters(layers@));
        }
    }

    /// Statistics of every layer, L0 layers first, then L1, then L2.
    pub fn aggregate_stats(&self) -> (r: GmemStats)
        ensures
            r@ == merged_counters(
                fold_counters(
                    fold_counters(zero_counters(), layer_counters(self.l0@)),
                    layer_counters(self.l1@),
                ),
                self.l2.counters(),
            ),
    {
        let mut s = GmemStats::default();
        Self::add_layers(&mut s, &self.l0);
        Self::add_layers(&mut s, &self.l1);
        let l2 = self.l2.stats();
        s.accumulate_from(&l2);
        s
    }

    /// Statistics of each level: all L0 layers, all L1 layers, and L2.
    pub fn per_level_stats(&self) -> (r: (GmemStats, GmemStats, GmemStats))
        ensures
            r.0@ == fold_counters(zero_counters(), layer_counters(self.l0@)),
            r.1@ == fold_counters(zero_counters(), layer_counters(self.l1@)),
            r.2@ == self.l2.counters(),
    {
        let mut l0 = GmemStats::default();
        Self::add_layers(&mut l0, &self.l0);
        let mut l1 = GmemStats::default();
        Self::add_layers(&mut l1, &self.l1);
        let l2 = self.l2.stats();
        (l0, l1, l2)
    }
}

} // verus!
