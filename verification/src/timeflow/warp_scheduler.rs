//! Round-robin warp issue arbitration with a per-cycle issue width.

use crate::timeq::Cycle;
use vstd::prelude::*;

verus! {

#[derive(Debug, Clone, Copy)]
pub struct WarpSchedulerConfig {
    pub enabled: bool,
    pub issue_width: usize,
}

impl Default for WarpSchedulerConfig {
    fn default() -> (r: Self)
        ensures
            !r.enabled,
            r.issue_width == 1,
    {
        Self { enabled: false, issue_width: 1 }
    }
}

/// Warp at scan position `p` of a round that starts at `start`.
pub open spec fn scan_warp(start: int, n: int, p: int) -> int {
    if start + p < n {
        start + p
    } else {
        start + p - n
    }
}

/// Number of eligible warps among the first `k` scan positions.
pub open spec fn eligible_before(elig: Seq<bool>, start: int, k: int) -> nat
    decreases k,
{
    if k <= 0 {
        0
    } else {
        eligible_before(elig, start, k - 1) + (if elig[scan_warp(start, elig.len() as int, k - 1)] {
            1nat
        } else {
            0nat
        })
    }
}

/// Number of `true` entries of `s` at indices `a` up to `b`.
pub open spec fn count_range(s: Seq<bool>, a: int, b: int) -> nat
    decreases b - a,
{
    if b <= a {
        0
    } else {
        count_range(s, a, b - 1) + (if s[b - 1] {
            1nat
        } else {
            0nat
        })
    }
}

/// Number of `true` entries of `s`.
pub open spec fn count_true(s: Seq<bool>) -> nat {
    count_range(s, 0, s.len() as int)
}

/// Counting from `a` to `c` is counting from `a` to `b` and on to `c`.
proof fn lemma_count_split(s: Seq<bool>, a: int, b: int, c: int)
    requires
        a <= b <= c,
    ensures
        count_range(s, a, c) == count_range(s, a, b) + count_range(s, b, c),
    decreases c - b,
{
    if c > b {
        lemma_count_split(s, a, b, c - 1);
    }
}

/// Counted over one whole round from `start`, the eligible warps are the
/// `true` entries.
proof fn lemma_round_counts_all(s: Seq<bool>, start: int, k: int)
    requires
        0 <= start < s.len(),
        0 <= k <= s.len(),
    ensures
        k <= s.len() - start ==> eligible_before(s, start, k) == count_range(s, start, start + k),
        k > s.len() - start ==> eligible_before(s, start, k) == count_range(s, start, s.len() as int)
            + count_range(s, 0, k - (s.len() - start)),
        k == s.len() ==> eligible_before(s, start, k) == count_true(s),
    decreases k,
{
    let n = s.len() as int;
    if k > 0 {
        lemma_round_counts_all(s, start, k - 1);
        let w = scan_warp(start, n, k - 1);
        assert(eligible_before(s, start, k) == eligible_before(s, start, k - 1) + (if s[w] {
            1nat
        } else {
            0nat
        }));
        if k > n - start {
            assert(w == k - 1 - (n - start));
            assert(count_range(s, 0, k - (n - start)) == count_range(s, 0, k - 1 - (n - start)) + (if s[w] {
                1nat
            } else {
                0nat
            }));
            if k - 1 == n - start {
                assert(count_range(s, 0, 0) == 0);
            }
        }
    }
    if k == n {
        lemma_count_split(s, 0, start, n);
        if start == 0 {
            assert(count_range(s, 0, 0) == 0);
        }
    }
}

/// Scan position of warp `w` in a round that starts at `start`.
pub open spec fn scan_pos(start: int, n: int, w: int) -> int {
    if w >= start {
        w - start
    } else {
        w + n - start
    }
}

/// Whether warp `w` is granted: it is eligible and fewer than `width`
/// eligible warps precede it in the round.
pub open spec fn granted(elig: Seq<bool>, start: int, width: int, w: int) -> bool {
    elig[w] && eligible_before(elig, start, scan_pos(start, elig.len() as int, w)) < width
}

/// Largest index holding `true`, or -1.
pub open spec fn last_true(s: Seq<bool>) -> int
    decreases s.len(),
{
    if s.len() == 0 {
        -1
    } else if s.last() {
        s.len() - 1
    } else {
        last_true(s.drop_last())
    }
}

#[derive(Debug, Clone)]
pub struct WarpIssueScheduler {
    enabled: bool,
    issue_width: usize,
    rr_cursor: usize,
    last_cycle: Option<Cycle>,
}

impl WarpIssueScheduler {
    pub closed spec fn enabled_spec(&self) -> bool {
        self.enabled
    }

    pub closed spec fn width(&self) -> usize {
        self.issue_width
    }

    /// Warp at which the next round starts (modulo the number of warps).
    pub closed spec fn cursor(&self) -> usize {
        self.rr_cursor
    }

    pub closed spec fn last_cycle_spec(&self) -> Option<Cycle> {
        self.last_cycle
    }

    pub open spec fn wf(&self) -> bool {
        self.width() >= 1
    }

    pub fn new(config: WarpSchedulerConfig) -> (r: Self)
        ensures
            r.wf(),
            r.enabled_spec() == config.enabled,
            r.width() == (if config.issue_width >= 1 {
                config.issue_width
            } else {
                1
            }),
            r.cursor() == 0,
            r.last_cycle_spec() is None,
    {
        let issue_width = if config.issue_width >= 1 {
            config.issue_width
        } else {
            1
        };
        Self { enabled: config.enabled, issue_width, rr_cursor: 0, last_cycle: None }
    }

    pub fn enabled(&self) -> (r: bool)
        ensures
            r == self.enabled_spec(),
    {
        self.enabled
    }

    proof fn lemma_scan_bijection(start: int, n: int, p: int)
        requires
            0 <= start < n,
            0 <= p < n,
        ensures
            0 <= scan_warp(start, n, p) < n,
            scan_pos(start, n, scan_warp(start, n, p)) == p,
    {
    }

    /// Granting by `granted` over one round gives as many grants as the
    /// width allows of the eligible warps, counted over the round's scan
    /// positions (each warp once).
    proof fn lemma_grant_count(elig: Seq<bool>, r: Seq<bool>, start: int, width: int, k: int)
        requires
            0 <= start < elig.len(),
            r.len() == elig.len(),
            0 <= k <= elig.len(),
            width >= 0,
            forall|w: int| 0 <= w < elig.len() ==> r[w] == granted(elig, start, width, w),
        ensures
            eligible_before(r, start, k) == if eligible_before(elig, start, k) < width {
                eligible_before(elig, start, k) as int
            } else {
                width
            },
        decreases k,
    {
        if k > 0 {
            Self::lemma_grant_count(elig, r, start, width, k - 1);
            Self::lemma_scan_bijection(start, elig.len() as int, k - 1);
            let w = scan_warp(start, elig.len() as int, k - 1);
            assert(r[w] == granted(elig, start, width, w));
        }
    }

    proof fn lemma_before_monotone(elig: Seq<bool>, start: int, a: int, b: int)
        requires
            0 <= a <= b,
        ensures
            eligible_before(elig, start, a) <= eligible_before(elig, start, b),
        decreases b - a,
    {
        if a < b {
            Self::lemma_before_monotone(elig, start, a, b - 1);
        }
    }

    proof fn lemma_no_true_no_count(elig: Seq<bool>, start: int, k: int)
        requires
            forall|j: int| 0 <= j < elig.len() ==> !elig[j],
            0 <= start < elig.len(),
            0 <= k <= elig.len(),
        ensures
            eligible_before(elig, start, k) == 0,
        decreases k,
    {
        if k > 0 {
            Self::lemma_no_true_no_count(elig, start, k - 1);
            Self::lemma_scan_bijection(start, elig.len() as int, k - 1);
        }
    }

    proof fn lemma_last_true(s: Seq<bool>)
        ensures
            -1 <= last_true(s) < s.len(),
            last_true(s) >= 0 ==> s[last_true(s)],
            forall|j: int| last_true(s) < j < s.len() ==> !s[j],
        decreases s.len(),
    {
        if s.len() > 0 && !s.last() {
            Self::lemma_last_true(s.drop_last());
            assert forall|j: int| last_true(s) < j < s.len() implies !s[j] by {
                if j < s.len() - 1 {
                    assert(s[j] == s.drop_last()[j]);
                }
            }
        }
    }

    /// Grant up to the issue width of the eligible warps, scanning round
    /// robin from the cursor; a disabled scheduler grants every eligible
    /// warp. The cursor moves past the warp that filled the width, or past
    /// the highest granted warp when the width was not filled.
    #[verifier::spinoff_prover]
    pub fn select(&mut self, now: Cycle, eligible: &[bool]) -> (r: Vec<bool>)
        requires
            old(self).wf(),
        ensures
            final(self).wf(),
            final(self).enabled_spec() == old(self).enabled_spec(),
            final(self).width() == old(self).width(),
            !old(self).enabled_spec() ==> r@ == eligible@ && *final(self) == *old(self),
            old(self).enabled_spec() && eligible@.len() == 0 ==> r@.len() == 0 && *final(self)
                == *old(self),
            old(self).enabled_spec() && eligible@.len() > 0 ==> {
                let n = eligible@.len() as int;
                let start = old(self).cursor() as int % n;
                let width = old(self).width() as int;
                let total = eligible_before(eligible@, start, n);
                &&& r@.len() == n
                &&& forall|w: int| 0 <= w < n ==> r@[w] == granted(eligible@, start, width, w)
                &&& final(self).last_cycle_spec() == Some(now)
                &&& total >= width ==> exists|p: int|
                    0 <= p < n && eligible@[scan_warp(start, n, p)] && eligible_before(
                        eligible@,
                        start,
                        p,
                    ) == width - 1 && final(self).cursor() == (scan_warp(start, n, p) + 1) % n
                &&& 0 < total < width ==> final(self).cursor() == (last_true(eligible@) + 1) % n
                &&& total == 0 ==> final(self).cursor() == old(self).cursor()
                &&& eligible_before(r@, start, n) == if total < width {
                    total as int
                } else {
                    width
                }
                &&& count_true(r@) == if count_true(eligible@) < width {
                    count_true(eligible@) as int
                } else {
                    width
                }
                &&& forall|w: int| 0 <= w < n && #[trigger] r@[w] ==> eligible@[w]
            },
    {
        let n = eligible.len();
        if !self.enabled {
            let mut copy: Vec<bool> = Vec::new();
            let mut i: usize = 0;
            while i < n
                invariant
                    n == eligible@.len(),
                    i <= n,
                    copy@ == eligible@.take(i as int),
                decreases n - i,
            {
                copy.push(eligible[i]);
                i = i + 1;
                proof {
                    assert(copy@ =~= eligible@.take(i as int));
                }
            }
            assert(copy@ =~= eligible@);
            return copy;
        }
        if n == 0 {
            return Vec::new();
        }
        self.last_cycle = Some(now);
        let ghost elig = eligible@;
        let mut grants: Vec<bool> = Vec::new();
        let mut k: usize = 0;
        while k < n
            invariant
                n == elig.len(),
                k <= n,
                grants@.len() == k,
                forall|j: int| 0 <= j < k ==> grants@[j] == false,
            decreases n - k,
        {
            grants.push(false);
            k = k + 1;
        }
        let width = self.issue_width;
        let start = self.rr_cursor % n;
        let mut granted_count: usize = 0;
        let mut offset: usize = 0;
        let mut filled = false;
        let ghost mut fill_pos: int = 0;
        while offset < n
            invariant_except_break
                granted_count == eligible_before(elig, start as int, offset as int),
                granted_count < width,
                forall|w: int|
                    0 <= w < n ==> #[trigger] grants@[w] == (elig[w] && scan_pos(
                        start as int,
                        n as int,
                        w,
                    ) < offset),
                self.rr_cursor == old(self).rr_cursor,
                !filled,
            invariant
                n == elig.len(),
                eligible@ == elig,
                0 <= start < n,
                width == self.issue_width,
                width >= 1,
                offset <= n,
                grants@.len() == n,
                self.enabled,
                self.last_cycle == Some(now),
            ensures
                grants@.len() == n,
                filled ==> 0 <= fill_pos < n && elig[scan_warp(start as int, n as int, fill_pos)]
                    && eligible_before(elig, start as int, fill_pos) == width - 1
                    && granted_count >= width
                    && self.rr_cursor == (scan_warp(start as int, n as int, fill_pos) + 1) % (n as int)
                    && forall|w: int|
                    0 <= w < n ==> #[trigger] grants@[w] == (elig[w] && scan_pos(
                        start as int,
                        n as int,
                        w,
                    ) <= fill_pos),
                !filled ==> granted_count == eligible_before(elig, start as int, n as int)
                    && granted_count < width && self.rr_cursor == old(self).rr_cursor && forall|
                    w: int,
                | 0 <= w < n ==> #[trigger] grants@[w] == elig[w],
            decreases n - offset,
        {
            let wid = if offset < n - start {
                start + offset
            } else {
                offset - (n - start)
            };
            proof {
                Self::lemma_scan_bijection(start as int, n as int, offset as int);
                assert(wid == scan_warp(start as int, n as int, offset as int));
            }
            if eligible[wid] {
                grants.set(wid, true);
                granted_count = granted_count + 1;
                if granted_count >= width {
                    self.rr_cursor = (wid + 1) % n;
                    filled = true;
                    proof {
                        fill_pos = offset as int;
                        assert forall|w: int| 0 <= w < n implies #[trigger] grants@[w] == (elig[w]
                            && scan_pos(start as int, n as int, w) <= fill_pos) by {
                            if w != wid {
                            }
                        }
                    }
                    break;
                }
            }
            offset = offset + 1;
            proof {
                assert forall|w: int| 0 <= w < n implies #[trigger] grants@[w] == (elig[w]
                    && scan_pos(start as int, n as int, w) < offset) by {
                    if w != wid {
                    }
                }
            }
        }
        proof {
            assert forall|w: int| 0 <= w < n implies #[trigger] grants@[w] == granted(
                elig,
                start as int,
                width as int,
                w,
            ) by {
                let p = scan_pos(start as int, n as int, w);
                if filled {
                    if p <= fill_pos {
                        Self::lemma_before_monotone(elig, start as int, p, fill_pos);
                    } else {
                        Self::lemma_before_monotone(elig, start as int, fill_pos + 1, p);
                    }
                } else {
                    Self::lemma_before_monotone(elig, start as int, p, n as int);
                }
            }
            if filled {
                Self::lemma_before_monotone(elig, start as int, fill_pos + 1, n as int);
            }
        }
        if granted_count > 0 && granted_count < width {
            let mut last: usize = n;
            let mut j: usize = n;
            while j > 0
                invariant
                    j <= n,
                    last <= n,
                    grants@.len() == n,
                    last == n ==> forall|i: int| j <= i < n ==> !grants@[i],
                    last < n ==> grants@[last as int] && forall|i: int| last < i < n ==> !grants@[i],
                decreases j,
            {
                j = j - 1;
                if grants[j] && last == n {
                    last = j;
                }
            }
            proof {
                Self::lemma_last_true(elig);
                assert(grants@ =~= elig);
                if last == n {
                    assert(last_true(elig) >= 0) by {
                        if last_true(elig) < 0 {
                            Self::lemma_no_true_no_count(elig, start as int, n as int);
                        }
                    }
                    assert(!grants@[last_true(elig)]);
                    assert(elig[last_true(elig)]);
                    assert(false);
                }
                if last < n {
                    let lt = last_true(elig);
                    if lt < last as int {
                        assert(!elig[last as int]);
                    }
                    if lt > last as int {
                        assert(!grants@[lt]);
                    }
                }
                assert(last == last_true(elig));
            }
            if last < n {
                self.rr_cursor = (last + 1) % n;
            }
        }
        proof {
            Self::lemma_grant_count(elig, grants@, (old(self).rr_cursor as int) % (n as int), self.issue_width as int, n as int);
            lemma_round_counts_all(elig, (old(self).rr_cursor as int) % (n as int), n as int);
            lemma_round_counts_all(grants@, (old(self).rr_cursor as int) % (n as int), n as int);
        }
        grants
    }
}

} // verus!
