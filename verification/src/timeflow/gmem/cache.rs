//! Set-associative tag array with least-recently-used replacement.

use vstd::prelude::*;

verus! {

/// Position of the first `x` in `s` at or after `i`, or `s.len()`.
pub open spec fn find_from<A>(s: Seq<A>, x: A, i: int) -> int
    decreases s.len() - i,
{
    if i >= s.len() {
        s.len() as int
    } else if i >= 0 && s[i] == x {
        i
    } else {
        find_from(s, x, i + 1)
    }
}

/// Recency order after `way` is used: it moves to the front.
pub open spec fn touched(order: Seq<usize>, way: usize) -> Seq<usize> {
    seq![way] + order.remove(find_from(order, way, 0))
}

/// `order` lists each way below `ways` exactly once.
pub open spec fn is_order(order: Seq<usize>, ways: nat) -> bool {
    &&& order.len() == ways
    &&& forall|i: int| 0 <= i < order.len() ==> #[trigger] order[i] < ways
    &&& forall|w: usize| w < ways ==> #[trigger] order.contains(w)
    &&& forall|i: int, j: int|
        0 <= i < order.len() && 0 <= j < order.len() && i != j ==> #[trigger] order[i]
            != #[trigger] order[j]
}

/// Recency order of a set that has not been used yet.
pub open spec fn initial_order(ways: nat) -> Seq<usize> {
    Seq::new(ways, |i: int| i as usize)
}

proof fn lemma_find_from<A>(s: Seq<A>, x: A, i: int)
    requires
        0 <= i <= s.len(),
    ensures
        i <= find_from(s, x, i) <= s.len(),
        find_from(s, x, i) < s.len() ==> s[find_from(s, x, i)] == x,
        forall|j: int| i <= j < find_from(s, x, i) ==> s[j] != x,
    decreases s.len() - i,
{
    if i < s.len() && s[i] != x {
        lemma_find_from(s, x, i + 1);
    }
}

proof fn lemma_find_skip<A>(s: Seq<A>, x: A, i: int)
    requires
        0 <= i <= s.len(),
        forall|j: int| 0 <= j < i ==> s[j] != x,
    ensures
        find_from(s, x, 0) == find_from(s, x, i),
    decreases i,
{
    if i > 0 {
        lemma_find_skip(s, x, i - 1);
    }
}

proof fn lemma_touched_order(order: Seq<usize>, ways: nat, way: usize)
    requires
        is_order(order, ways),
        way < ways,
    ensures
        is_order(touched(order, way), ways),
        find_from(order, way, 0) < order.len(),
{
    lemma_find_from(order, way, 0);
    let p = find_from(order, way, 0);
    assert(order.contains(way));
    if p >= order.len() {
        let k = choose|k: int| 0 <= k < order.len() && order[k] == way;
        assert(false);
    }
    let rest = order.remove(p);
    order.remove_ensures(p);
    let t = touched(order, way);
    assert(t.len() == ways);
    assert forall|i: int| 0 <= i < t.len() implies #[trigger] t[i] == (if i == 0 {
        way
    } else if i - 1 < p {
        order[i - 1]
    } else {
        order[i]
    }) by {}
    assert forall|w: usize| w < ways implies #[trigger] t.contains(w) by {
        if w == way {
            assert(t[0] == w);
        } else {
            assert(order.contains(w));
            let k = choose|k: int| 0 <= k < order.len() && order[k] == w;
            if k < p {
                assert(rest[k] == order[k]);
                assert(t[k + 1] == rest[k]);
            } else {
                assert(k != p);
                assert(rest[k - 1] == order[k]);
                assert(t[k] == rest[k - 1]);
            }
        }
    }
}

#[derive(Debug)]
pub struct CacheTagArray {
    sets: usize,
    ways: usize,
    tags: Vec<Option<u64>>,
    lru: Vec<Vec<usize>>,
}

/// Position of way `w` of set `s` in the flat tag array.
pub open spec fn slot(ways: nat, s: int, w: int) -> int {
    s * ways + w
}

proof fn lemma_slot_bound(sets: nat, ways: nat, s: int, w: int)
    requires
        0 <= s < sets,
        0 <= w < ways,
    ensures
        0 <= slot(ways, s, w) < sets * ways,
        slot(ways, s, w) + ways - w <= sets * ways,
{
    assert(0 <= s * ways + w < sets * ways) by (nonlinear_arith)
        requires
            0 <= s < sets,
            0 <= w < ways,
    ;
    assert(s * ways + ways <= sets * ways) by (nonlinear_arith)
        requires
            0 <= s < sets,
    ;
}

impl CacheTagArray {
    pub closed spec fn n_sets(&self) -> nat {
        self.sets as nat
    }

    pub closed spec fn n_ways(&self) -> nat {
        self.ways as nat
    }

    /// Tags of all ways, set by set.
    pub closed spec fn tags_view(&self) -> Seq<Option<u64>> {
        self.tags@
    }

    /// Recency order of each set, most recent first.
    pub closed spec fn orders(&self) -> Seq<Seq<usize>> {
        Seq::new(self.lru@.len(), |s: int| self.lru@[s]@)
    }

    pub open spec fn tag(&self, s: int, w: int) -> Option<u64> {
        self.tags_view()[slot(self.n_ways(), s, w)]
    }

    /// Tags of the ways of set `s`.
    pub open spec fn row(&self, s: int) -> Seq<Option<u64>> {
        self.tags_view().subrange(
            slot(self.n_ways(), s, 0),
            slot(self.n_ways(), s, self.n_ways() as int),
        )
    }

    /// Set that `line_addr` maps to.
    pub open spec fn set_of(&self, line_addr: u64) -> int {
        ((line_addr as usize) as nat % self.n_sets()) as int
    }

    pub open spec fn wf(&self) -> bool {
        &&& self.n_sets() >= 1
        &&& self.n_ways() >= 1
        &&& self.n_sets() * self.n_ways() <= usize::MAX
        &&& self.tags_view().len() == self.n_sets() * self.n_ways()
        &&& self.orders().len() == self.n_sets()
        &&& forall|s: int| 0 <= s < self.n_sets() ==> is_order(#[trigger] self.orders()[s], self.n_ways())
    }

    fn build_lru(sets: usize, ways: usize) -> (r: Vec<Vec<usize>>)
        ensures
            r@.len() == sets,
            forall|s: int| 0 <= s < sets ==> (#[trigger] r@[s])@ == initial_order(ways as nat),
    {
        let mut lru: Vec<Vec<usize>> = Vec::with_capacity(sets);
        let mut i: usize = 0;
        while i < sets
            invariant
                i <= sets,
                lru@.len() == i,
                forall|s: int| 0 <= s < i ==> (#[trigger] lru@[s])@ == initial_order(ways as nat),
            decreases sets - i,
        {
            lru.push(Self::initial_ways(ways));
            i = i + 1;
        }
        lru
    }

    fn initial_ways(ways: usize) -> (r: Vec<usize>)
        ensures
            r@ == initial_order(ways as nat),
    {
        let mut v: Vec<usize> = Vec::new();
        let mut w: usize = 0;
        while w < ways
            invariant
                w <= ways,
                v@ == initial_order(w as nat),
            decreases ways - w,
        {
            v.push(w);
            w = w + 1;
            proof {
                assert(v@ =~= initial_order(w as nat));
            }
        }
        v
    }

    proof fn lemma_initial_order(ways: nat)
        requires
            ways <= usize::MAX,
        ensures
            is_order(initial_order(ways), ways),
    {
        let o = initial_order(ways);
        assert forall|w: usize| w < ways implies #[trigger] o.contains(w) by {
            assert(o[w as int] == w);
        }
    }

    /// A tag array of `sets` sets of `ways` ways (each at least one), all
    /// empty.
    pub fn new(sets: usize, ways: usize) -> (r: Self)
        requires
            (if sets >= 1 {
                sets
            } else {
                1
            }) * (if ways >= 1 {
                ways
            } else {
                1
            }) <= usize::MAX,
        ensures
            r.wf(),
            r.n_sets() == (if sets >= 1 {
                sets
            } else {
                1
            }),
            r.n_ways() == (if ways >= 1 {
                ways
            } else {
                1
            }),
            forall|i: int| 0 <= i < r.tags_view().len() ==> (#[trigger] r.tags_view()[i]) is None,
            forall|s: int| 0 <= s < r.n_sets() ==> #[trigger] r.orders()[s] == initial_order(
                r.n_ways(),
            ),
    {
        let sets = if sets >= 1 {
            sets
        } else {
            1
        };
        let ways = if ways >= 1 {
            ways
        } else {
            1
        };
        let total = sets * ways;
        let mut tags: Vec<Option<u64>> = Vec::with_capacity(total);
        let mut i: usize = 0;
        while i < total
            invariant
                i <= total,
                tags@.len() == i,
                forall|j: int| 0 <= j < i ==> (#[trigger] tags@[j]) is None,
            decreases total - i,
        {
            tags.push(None);
            i = i + 1;
        }
        let lru = Self::build_lru(sets, ways);
        let r = Self { sets, ways, tags, lru };
        proof {
            Self::lemma_initial_order(ways as nat);
            assert forall|s: int| 0 <= s < r.n_sets() implies #[trigger] r.orders()[s]
                == initial_order(r.n_ways()) by {}
        }
        r
    }

    fn idx(&self, set_idx: usize, way: usize) -> (r: usize)
        requires
            self.wf(),
            set_idx < self.n_sets(),
            way < self.n_ways(),
        ensures
            r == slot(self.n_ways(), set_idx as int, way as int),
            r < self.tags_view().len(),
    {
        proof {
            lemma_slot_bound(self.n_sets(), self.n_ways(), set_idx as int, way as int);
        }
        set_idx * self.ways + way
    }

    pub fn get_tag(&self, set_idx: usize, way: usize) -> (r: Option<u64>)
        requires
            self.wf(),
            set_idx < self.n_sets(),
            way < self.n_ways(),
        ensures
            r == self.tag(set_idx as int, way as int),
    {
        let idx = self.idx(set_idx, way);
        self.tags[idx]
    }

    pub fn set_tag(&mut self, set_idx: usize, way: usize, val: Option<u64>)
        requires
            old(self).wf(),
            set_idx < old(self).n_sets(),
            way < old(self).n_ways(),
        ensures
            final(self).wf(),
            final(self).n_sets() == old(self).n_sets(),
            final(self).n_ways() == old(self).n_ways(),
            final(self).tags_view() == old(self).tags_view().update(
                slot(old(self).n_ways(), set_idx as int, way as int),
                val,
            ),
            final(self).orders() == old(self).orders(),
    {
        let idx = self.idx(set_idx, way);
        self.tags.set(idx, val);
    }

    proof fn lemma_row(&self, s: int)
        requires
            self.wf(),
            0 <= s < self.n_sets(),
        ensures
            self.row(s).len() == self.n_ways(),
            forall|j: int| 0 <= j < self.n_ways() ==> #[trigger] self.row(s)[j] == self.tag(s, j),
    {
        lemma_slot_bound(self.n_sets(), self.n_ways(), s, 0);
    }

    fn reset_lru_for_set(&mut self, set_idx: usize)
        requires
            old(self).wf(),
            set_idx < old(self).n_sets(),
        ensures
            final(self).wf(),
            final(self).n_sets() == old(self).n_sets(),
            final(self).n_ways() == old(self).n_ways(),
            final(self).tags_view() == old(self).tags_view(),
            final(self).orders() == old(self).orders().update(
                set_idx as int,
                initial_order(old(self).n_ways()),
            ),
    {
        let fresh = Self::initial_ways(self.ways);
        self.lru.set(set_idx, fresh);
        proof {
            Self::lemma_initial_order(self.n_ways());
            assert(self.orders() =~= old(self).orders().update(
                set_idx as int,
                initial_order(old(self).n_ways()),
            ));
        }
    }

    /// Move `way` to the front of the recency order of its set.
    fn touch(&mut self, set_idx: usize, way: usize)
        requires
            old(self).wf(),
            set_idx < old(self).n_sets(),
            way < old(self).n_ways(),
        ensures
            final(self).wf(),
            final(self).n_sets() == old(self).n_sets(),
            final(self).n_ways() == old(self).n_ways(),
            final(self).tags_view() == old(self).tags_view(),
            final(self).orders() == old(self).orders().update(
                set_idx as int,
                touched(old(self).orders()[set_idx as int], way),
            ),
    {
        let ghost o = self.lru@[set_idx as int]@;
        proof {
            assert(o == self.orders()[set_idx as int]);
            lemma_touched_order(o, self.n_ways(), way);
            lemma_find_from(o, way, 0);
        }
        let n = self.lru[set_idx].len();
        let mut pos: usize = 0;
        while pos < n
            invariant
                n == o.len(),
                pos <= n,
                self.wf(),
                set_idx < self.n_sets(),
                o == self.lru@[set_idx as int]@,
                forall|j: int| 0 <= j < pos ==> o[j] != way,
            ensures
                pos <= n,
                forall|j: int| 0 <= j < pos ==> o[j] != way,
                pos < n ==> o[pos as int] == way,
            decreases n - pos,
        {
            if self.lru[set_idx][pos] == way {
                break;
            }
            pos = pos + 1;
        }
        proof {
            lemma_find_skip(o, way, pos as int);
            lemma_find_from(o, way, pos as int);
        }
        let mut order = self.lru[set_idx].clone();
        assert(order@ == o);
        if pos < n {
            order.remove(pos);
        }
        order.insert(0, way);
        assert(order@ =~= touched(o, way));
        self.lru.set(set_idx, order);
        proof {
            assert(self.orders() =~= old(self).orders().update(
                set_idx as int,
                touched(old(self).orders()[set_idx as int], way),
            ));
            assert forall|s2: int| 0 <= s2 < self.n_sets() implies is_order(
                #[trigger] self.orders()[s2],
                self.n_ways(),
            ) by {
                if s2 != set_idx as int {
                    assert(self.orders()[s2] == old(self).orders()[s2]);
                }
            }
        }
    }

    /// First way of set `set_idx` whose tag is `line_addr`, or the number of
    /// ways.
    fn find_way(&self, set_idx: usize, line_addr: u64) -> (r: usize)
        requires
            self.wf(),
            set_idx < self.n_sets(),
        ensures
            r == find_from(self.row(set_idx as int), Some(line_addr), 0),
    {
        let ghost row = self.row(set_idx as int);
        proof {
            self.lemma_row(set_idx as int);
        }
        let mut way: usize = 0;
        while way < self.ways
            invariant
                self.wf(),
                set_idx < self.n_sets(),
                row == self.row(set_idx as int),
                row.len() == self.n_ways(),
                way <= self.n_ways(),
                forall|j: int| 0 <= j < way ==> row[j] != Some(line_addr),
            decreases self.n_ways() - way,
        {
            let tag = self.get_tag(set_idx, way);
            proof {
                lemma_slot_bound(self.n_sets(), self.n_ways(), set_idx as int, way as int);
                assert(row[way as int] == self.tag(set_idx as int, way as int));
            }
            match tag {
                Some(t) => {
                    if t == line_addr {
                        proof {
                            lemma_find_skip(row, Some(line_addr), way as int);
                        }
                        return way;
                    }
                },
                None => {},
            }
            way = way + 1;
        }
        proof {
            lemma_find_skip(row, Some(line_addr), way as int);
        }
        way
    }

    /// First empty way of set `set_idx`, or the number of ways.
    fn find_empty(&self, set_idx: usize) -> (r: usize)
        requires
            self.wf(),
            set_idx < self.n_sets(),
        ensures
            r == find_from(self.row(set_idx as int), None, 0),
    {
        let ghost row = self.row(set_idx as int);
        proof {
            self.lemma_row(set_idx as int);
        }
        let mut way: usize = 0;
        while way < self.ways
            invariant
                self.wf(),
                set_idx < self.n_sets(),
                row == self.row(set_idx as int),
                row.len() == self.n_ways(),
                way <= self.n_ways(),
                forall|j: int| 0 <= j < way ==> row[j] != None::<u64>,
            decreases self.n_ways() - way,
        {
            let tag = self.get_tag(set_idx, way);
            proof {
                lemma_slot_bound(self.n_sets(), self.n_ways(), set_idx as int, way as int);
                assert(row[way as int] == self.tag(set_idx as int, way as int));
            }
            if tag.is_none() {
                proof {
                    lemma_find_skip(row, None, way as int);
                }
                return way;
            }
            way = way + 1;
        }
        proof {
            lemma_find_skip(row, None, way as int);
        }
        way
    }

    /// `post` and `r` are `self` and the answer after `probe(line_addr)`.
    pub open spec fn probed(&self, post: &Self, line_addr: u64, r: bool) -> bool {
        let s = self.set_of(line_addr);
        let w = find_from(self.row(s), Some(line_addr), 0);
        &&& post.wf()
        &&& post.n_sets() == self.n_sets()
        &&& post.n_ways() == self.n_ways()
        &&& post.tags_view() == self.tags_view()
        &&& r == (w < self.n_ways())
        &&& r ==> post.orders() == self.orders().update(s, touched(self.orders()[s], w as usize))
        &&& !r ==> post.orders() == self.orders()
    }

    /// Look `line_addr` up; on a hit its way becomes the most recently used
    /// of its set.
    pub fn probe(&mut self, line_addr: u64) -> (r: bool)
        requires
            old(self).wf(),
        ensures
            old(self).probed(final(self), line_addr, r),
    {
        let set_idx = (line_addr as usize) % self.sets;
        let way = self.find_way(set_idx, line_addr);
        if way < self.ways {
            self.touch(set_idx, way);
            return true;
        }
        false
    }

    /// `post` is `self` after `fill(line_addr)`.
    pub open spec fn filled(&self, post: &Self, line_addr: u64) -> bool {
        let s = self.set_of(line_addr);
        let row = self.row(s);
        let hit = find_from(row, Some(line_addr), 0);
        let empty = find_from(row, None, 0);
        let victim: int = if empty < self.n_ways() {
            empty
        } else {
            self.orders()[s].last() as int
        };
        &&& post.wf()
        &&& post.n_sets() == self.n_sets()
        &&& post.n_ways() == self.n_ways()
        &&& hit < self.n_ways() ==> post.tags_view() == self.tags_view() && post.orders()
            == self.orders().update(s, touched(self.orders()[s], hit as usize))
        &&& hit >= self.n_ways() ==> post.tags_view() == self.tags_view().update(
            slot(self.n_ways(), s, victim),
            Some(line_addr),
        ) && post.orders() == self.orders().update(s, touched(self.orders()[s], victim as usize))
    }

    /// Once a line is filled, a probe of it hits.
    pub proof fn lemma_fill_then_hit(pre: &Self, post: &Self, line_addr: u64)
        requires
            pre.wf(),
            pre.filled(post, line_addr),
        ensures
            find_from(post.row(post.set_of(line_addr)), Some(line_addr), 0) < post.n_ways(),
    {
        let s = pre.set_of(line_addr);
        pre.lemma_row(s);
        post.lemma_row(s);
        let row = pre.row(s);
        let hit = find_from(row, Some(line_addr), 0);
        let empty = find_from(row, None, 0);
        lemma_find_from(row, Some(line_addr), 0);
        lemma_find_from(row, None, 0);
        if hit < pre.n_ways() {
            assert(post.row(s) =~= row);
        } else {
            let victim: int = if empty < pre.n_ways() {
                empty
            } else {
                pre.orders()[s].last() as int
            };
            assert(0 <= victim < pre.n_ways()) by {
                if empty >= pre.n_ways() {
                    assert(is_order(pre.orders()[s], pre.n_ways()));
                    assert(pre.orders()[s][pre.orders()[s].len() - 1] < pre.n_ways());
                }
            }
            lemma_slot_bound(pre.n_sets(), pre.n_ways(), s, victim);
            assert(post.row(s)[victim] == Some(line_addr));
            lemma_find_from(post.row(s), Some(line_addr), 0);
        }
    }

    /// In a tag array whose ways are all empty, every probe misses.
    pub proof fn lemma_empty_misses(&self, line_addr: u64)
        requires
            self.wf(),
            forall|i: int| 0 <= i < self.tags_view().len() ==> (#[trigger] self.tags_view()[i]) is None,
        ensures
            find_from(self.row(self.set_of(line_addr)), Some(line_addr), 0) == self.n_ways(),
    {
        let s = self.set_of(line_addr);
        self.lemma_row(s);
        let row = self.row(s);
        assert forall|j: int| 0 <= j < row.len() implies row[j] != Some(line_addr) by {
            lemma_slot_bound(self.n_sets(), self.n_ways(), s, j);
        }
        lemma_find_skip(row, Some(line_addr), row.len() as int);
    }

    /// Install `line_addr` in its set: a line already present is only
    /// touched; otherwise it takes the first empty way, or else the least
    /// recently used one, and becomes the most recently used.
    pub fn fill(&mut self, line_addr: u64)
        requires
            old(self).wf(),
        ensures
            old(self).filled(final(self), line_addr),
    {
        let set_idx = (line_addr as usize) % self.sets;
        let hit = self.find_way(set_idx, line_addr);
        if hit < self.ways {
            self.touch(set_idx, hit);
            return;
        }
        let empty = self.find_empty(set_idx);
        proof {
            assert(self.orders()[set_idx as int] == self.lru@[set_idx as int]@);
        }
        let way = if empty < self.ways {
            empty
        } else {
            let order = &self.lru[set_idx];
            if order.len() > 0 {
                order[order.len() - 1]
            } else {
                0
            }
        };
        self.set_tag(set_idx, way, Some(line_addr));
        self.touch(set_idx, way);
    }

    /// Empty every way and restore the initial recency order of every set.
    pub fn invalidate_all(&mut self)
        requires
            old(self).wf(),
        ensures
            final(self).wf(),
            final(self).n_sets() == old(self).n_sets(),
            final(self).n_ways() == old(self).n_ways(),
            forall|i: int|
                0 <= i < final(self).tags_view().len() ==> (#[trigger] final(self).tags_view()[i]) is None,
            forall|s: int|
                0 <= s < final(self).n_sets() ==> #[trigger] final(self).orders()[s]
                    == initial_order(final(self).n_ways()),
    {
        let ghost sets0 = self.n_sets();
        let ghost ways0 = self.n_ways();
        let ghost orders0 = self.orders();
        let total = self.tags.len();
        let mut i: usize = 0;
        while i < total
            invariant
                total == self.tags_view().len(),
                i <= total,
                self.n_sets() == sets0,
                self.n_ways() == ways0,
                self.orders() == orders0,
                self.wf(),
                forall|j: int| 0 <= j < i ==> (#[trigger] self.tags_view()[j]) is None,
            decreases total - i,
        {
            self.tags.set(i, None);
            i = i + 1;
        }
        let mut set_idx: usize = 0;
        while set_idx < self.sets
            invariant
                total == self.tags_view().len(),
                set_idx <= self.n_sets(),
                self.n_sets() == sets0,
                self.n_ways() == ways0,
                self.wf(),
                forall|j: int| 0 <= j < total ==> (#[trigger] self.tags_view()[j]) is None,
                forall|s: int| 0 <= s < set_idx ==> #[trigger] self.orders()[s] == initial_order(
                    self.n_ways(),
                ),
            decreases self.n_sets() - set_idx,
        {
            self.reset_lru_for_set(set_idx);
            set_idx = set_idx + 1;
        }
    }
}

} // verus!
