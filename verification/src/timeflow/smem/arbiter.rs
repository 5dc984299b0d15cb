//! Small arithmetic and arbitration helpers of the shared-memory model.

use crate::timeflow::smem::SmemClientKind;
use crate::timeflow::types::RejectReason;
use crate::timeq::{max_spec, max_u64, sat_add, AcceptStatus, Backpressure, Cycle, TimedServer};
use vstd::prelude::*;

verus! {

/// `value` rounded down to a multiple of `alignment` (at least one).
pub open spec fn align_down_spec(value: u64, alignment: u64) -> u64 {
    let a: u64 = if alignment >= 1 { alignment } else { 1 };
    ((value / a) * a) as u64
}

/// `value` rounded up to a multiple of `alignment` (at least one); the sum
/// that rounds up saturates.
pub open spec fn align_up_spec(value: u64, alignment: u64) -> u64 {
    let a: u64 = if alignment >= 1 { alignment } else { 1 };
    ((sat_add(value as int, a - 1) / a) * a) as u64
}

/// Rounding down gives the largest multiple of the alignment not above
/// the value; rounding up (when the sum does not saturate) the smallest
/// one not below it.
pub proof fn lemma_align(value: u64, alignment: u64)
    requires
        alignment >= 1,
    ensures
        align_down_spec(value, alignment) % alignment == 0,
        align_down_spec(value, alignment) <= value < align_down_spec(value, alignment) + alignment,
        value + alignment - 1 <= u64::MAX ==> align_up_spec(value, alignment) % alignment == 0
            && value <= align_up_spec(value, alignment) < value + alignment,
{
    let a = alignment as int;
    let v = value as int;
    vstd::arithmetic::div_mod::lemma_fundamental_div_mod(v, a);
    vstd::arithmetic::div_mod::lemma_mod_bound(v, a);
    vstd::arithmetic::div_mod::lemma_div_pos_is_pos(v, a);
    let q = v / a;
    assert(q * a <= v) by (nonlinear_arith)
        requires
            v == a * q + v % a,
            v % a >= 0,
    ;
    assert(v < q * a + a) by (nonlinear_arith)
        requires
            v == a * q + v % a,
            v % a < a,
    ;
    vstd::arithmetic::div_mod::lemma_mod_multiples_basic(q, a);
    if value + alignment - 1 <= u64::MAX {
        let s = v + a - 1;
        vstd::arithmetic::div_mod::lemma_fundamental_div_mod(s, a);
        vstd::arithmetic::div_mod::lemma_mod_bound(s, a);
        vstd::arithmetic::div_mod::lemma_div_pos_is_pos(s, a);
        let q2 = s / a;
        assert(q2 * a <= s && s < q2 * a + a) by (nonlinear_arith)
            requires
                s == a * q2 + s % a,
                0 <= s % a < a,
        ;
        vstd::arithmetic::div_mod::lemma_mod_multiples_basic(q2, a);
    }
}

pub fn align_down(value: u64, alignment: u64) -> (r: u64)
    ensures
        r == align_down_spec(value, alignment),
        r <= value,
{
    let alignment: u64 = if alignment >= 1 {
        alignment
    } else {
        1
    };
    let q = value / alignment;
    assert(q * alignment <= value) by (nonlinear_arith)
        requires
            q == value / alignment,
            alignment >= 1,
    ;
    q * alignment
}

pub fn align_up(value: u64, alignment: u64) -> (r: u64)
    ensures
        r == align_up_spec(value, alignment),
{
    let alignment: u64 = if alignment >= 1 {
        alignment
    } else {
        1
    };
    let s = value.saturating_add(alignment - 1);
    let q = s / alignment;
    assert(q * alignment <= s) by (nonlinear_arith)
        requires
            q == s / alignment,
            alignment >= 1,
    ;
    q * alignment
}

/// The low `n` bits set (all bits from 32 on).
pub open spec fn all_bits(n: nat) -> u32 {
    if n >= 32 {
        u32::MAX
    } else {
        ((1u32 << n) - 1) as u32
    }
}

/// Bit `i` of `x` is set.
pub open spec fn has_bit(x: u32, i: int) -> bool {
    0 <= i < 32 && (x >> (i as u32)) & 1u32 == 1u32
}

/// The highest bit below `n` set in `x`, or -1.
pub open spec fn top_bit(x: u32, n: int) -> int
    decreases n,
{
    if n <= 0 {
        -1
    } else if has_bit(x, n - 1) {
        n - 1
    } else {
        top_bit(x, n - 1)
    }
}

/// `n` clamped to `1..=32`.
pub open spec fn clamp_inputs(n: usize) -> nat {
    if n < 1 {
        1
    } else if n > 32 {
        32
    } else {
        n as nat
    }
}

pub proof fn lemma_top_bit(x: u32, n: int)
    ensures
        -1 <= top_bit(x, n) < if n > 0 { n } else { 0 },
        top_bit(x, n) >= 0 ==> has_bit(x, top_bit(x, n)),
    decreases n,
{
    if n > 0 && !has_bit(x, n - 1) {
        lemma_top_bit(x, n - 1);
    }
}

/// Setting bit `k` sets exactly that bit.
pub proof fn lemma_has_bit_or(v: u32, k: u32, i: int)
    requires
        k < 32,
    ensures
        has_bit(v | (1u32 << k), i) == (has_bit(v, i) || i == k),
{
    if 0 <= i < 32 {
        let iu = i as u32;
        assert(((v | (1u32 << k)) >> iu) & 1u32 == 1u32 <==> (((v >> iu) & 1u32 == 1u32) || iu == k)) by (bit_vector)
            requires
                k < 32,
                iu < 32,
        ;
    }
}

/// No bit of zero is set.
pub proof fn lemma_has_bit_zero(i: int)
    ensures
        !has_bit(0u32, i),
{
    if 0 <= i < 32 {
        let iu = i as u32;
        assert((0u32 >> iu) & 1u32 == 0u32) by (bit_vector);
    }
}

/// A bit of `a & b` is a bit of both, and a bit of both is one of `a & b`.
pub proof fn lemma_has_bit_and(a: u32, b: u32, i: int)
    ensures
        has_bit(a & b, i) == (has_bit(a, i) && has_bit(b, i)),
{
    if 0 <= i < 32 {
        let iu = i as u32;
        assert(((a & b) >> iu) & 1u32 == 1u32 <==> (((a >> iu) & 1u32 == 1u32) && ((b >> iu) & 1u32 == 1u32))) by (bit_vector)
            requires
                iu < 32,
        ;
    }
}

/// A bit of `!a` is one not set in `a`.
pub proof fn lemma_has_bit_not(a: u32, i: int)
    ensures
        0 <= i < 32 ==> has_bit(!a, i) == !has_bit(a, i),
{
    if 0 <= i < 32 {
        let iu = i as u32;
        assert(((!a) >> iu) & 1u32 == 1u32 <==> !((a >> iu) & 1u32 == 1u32)) by (bit_vector)
            requires
                iu < 32,
        ;
    }
}

/// The low `n` bits are set in `all_bits(n)`.
pub proof fn lemma_all_bits_has(n: nat, j: int)
    requires
        0 <= j < n,
        j < 32,
    ensures
        has_bit(all_bits(n), j),
{
    let ju = j as u32;
    if n >= 32 {
        assert((u32::MAX >> ju) & 1u32 == 1u32) by (bit_vector)
            requires
                ju < 32,
        ;
    } else {
        let nu = n as u32;
        assert((((1u32 << nu) - 1) as u32 >> ju) & 1u32 == 1u32) by (bit_vector)
            requires
                ju < nu,
                nu < 32,
        ;
    }
}

/// Bits from `n` on are clear in `all_bits(n)`.
pub proof fn lemma_all_bits_clear(n: nat, j: int)
    requires
        n <= j,
    ensures
        !has_bit(all_bits(n), j),
{
    if j < 32 {
        let ju = j as u32;
        let nu = n as u32;
        assert((((1u32 << nu) - 1) as u32 >> ju) & 1u32 != 1u32) by (bit_vector)
            requires
                nu <= ju,
                ju < 32,
        ;
    }
}

/// The highest set bit below `n` is below `w` when no bit from `w` to `n`
/// is set.
pub proof fn lemma_top_bit_below(x: u32, n: int, w: int)
    requires
        forall|i: int| w <= i < n ==> !has_bit(x, i),
    ensures
        top_bit(x, n) < w || top_bit(x, n) == -1,
    decreases n,
{
    if n > 0 && !has_bit(x, n - 1) {
        lemma_top_bit_below(x, n - 1, w);
    }
}

/// If some bit below `n` of `x` is set, the highest such bit exists.
pub proof fn lemma_top_bit_found(x: u32, n: int, j: int)
    requires
        0 <= j < n,
        has_bit(x, j),
    ensures
        top_bit(x, n) >= 0,
    decreases n,
{
    if !has_bit(x, n - 1) {
        lemma_top_bit_found(x, n - 1, j);
    }
}

fn low_mask(n: u32) -> (r: u32)
    requires
        1 <= n <= 32,
    ensures
        r == all_bits(n as nat),
{
    if n == 32 {
        u32::MAX
    } else {
        assert((1u32 << n) >= 1) by (bit_vector)
            requires
                n < 32,
        ;
        (1u32 << n) - 1
    }
}

/// Round-robin mask that lets every input win first: all inputs masked.
pub fn xbar_rr_initial_mask(num_inputs: usize) -> (r: u32)
    ensures
        num_inputs >= 32 ==> r == u32::MAX,
        num_inputs < 32 ==> r == all_bits(if num_inputs >= 1 { num_inputs as nat } else { 1 }),
{
    if num_inputs >= 32 {
        u32::MAX
    } else {
        let n: u32 = if num_inputs >= 1 {
            num_inputs as u32
        } else {
            1
        };
        low_mask(n)
    }
}

/// Highest bit below `n` set in `x`, if any.
fn top_set_bit(x: u32, n: u32) -> (r: Option<u32>)
    requires
        n <= 32,
    ensures
        top_bit(x, n as int) < 0 ==> r is None,
        top_bit(x, n as int) >= 0 ==> r == Some(top_bit(x, n as int) as u32),
{
    let mut i: u32 = n;
    while i > 0
        invariant
            i <= n <= 32,
            top_bit(x, n as int) == top_bit(x, i as int),
        decreases i,
    {
        let b = i - 1;
        if (x >> b) & 1u32 == 1u32 {
            return Some(b);
        }
        i = b;
    }
    None
}

/// The winner of a round-robin arbiter over `n_inputs` inputs (clamped to
/// 1..=32) and the mask for the next round. Among the requesting inputs
/// (`valid_bits`), the highest one outside `mask` wins; if every requester
/// is masked, the highest requester wins. The new mask covers the winner
/// and every input above it. With no requester the answer is input 0 and
/// the mask is kept.
pub open spec fn rr_winner(valid_bits: u32, mask: u32, n_inputs: usize) -> int {
    let n = clamp_inputs(n_inputs);
    let valid = valid_bits & all_bits(n);
    let unmasked = valid & !mask & all_bits(n);
    if top_bit(unmasked, n as int) >= 0 {
        top_bit(unmasked, n as int)
    } else {
        top_bit(valid, n as int)
    }
}

/// Round robin over the requesters `valid_bits` (inputs below
/// `n_inputs`): the winner is a requester whenever there is one, and an
/// input not yet served in the current sweep (outside `mask`) whenever
/// such a requester waits; and while the same inputs keep requesting,
/// the next round, under the mask this one leaves, goes to a requester
/// below this winner when one waits there, so no waiting input is passed
/// over for the winner twice in a row.
pub proof fn lemma_rr_fair(valid_bits: u32, mask: u32, n_inputs: usize)
    ensures
        ({
            let n = clamp_inputs(n_inputs) as int;
            let w = rr_winner(valid_bits, mask, n_inputs);
            let next_mask = all_bits(n as nat) & !all_bits(w as nat);
            &&& (exists|i: int| 0 <= i < n && #[trigger] has_bit(valid_bits, i)) ==> 0 <= w < n && has_bit(valid_bits, w)
            &&& (exists|i: int| 0 <= i < n && #[trigger] has_bit(valid_bits, i) && !has_bit(mask, i)) ==> !has_bit(mask, w)
            &&& w >= 0 && (exists|i: int| 0 <= i < w && #[trigger] has_bit(valid_bits, i)) ==> 0 <= rr_winner(
                valid_bits,
                next_mask,
                n_inputs,
            ) < w
        }),
{
    let n = clamp_inputs(n_inputs);
    let valid = valid_bits & all_bits(n);
    let unmasked = valid & !mask & all_bits(n);
    lemma_top_bit(unmasked, n as int);
    lemma_top_bit(valid, n as int);
    let w = rr_winner(valid_bits, mask, n_inputs);
    if w >= 0 {
        lemma_has_bit_and(valid & !mask, all_bits(n), w);
        lemma_has_bit_and(valid, !mask, w);
        lemma_has_bit_and(valid_bits, all_bits(n), w);
        lemma_has_bit_not(mask, w);
    }
    if exists|i: int| 0 <= i < n && #[trigger] has_bit(valid_bits, i) {
        let i = choose|i: int| 0 <= i < n && #[trigger] has_bit(valid_bits, i);
        lemma_all_bits_has(n, i);
        lemma_has_bit_and(valid_bits, all_bits(n), i);
        lemma_top_bit_found(valid, n as int, i);
    }
    if exists|i: int| 0 <= i < n && #[trigger] has_bit(valid_bits, i) && !has_bit(mask, i) {
        let i = choose|i: int| 0 <= i < n && #[trigger] has_bit(valid_bits, i) && !has_bit(mask, i);
        lemma_all_bits_has(n, i);
        lemma_has_bit_and(valid_bits, all_bits(n), i);
        lemma_has_bit_not(mask, i);
        lemma_has_bit_and(valid, !mask, i);
        lemma_has_bit_and(valid & !mask, all_bits(n), i);
        lemma_top_bit_found(unmasked, n as int, i);
    }
    if w >= 0 && exists|i: int| 0 <= i < w && #[trigger] has_bit(valid_bits, i) {
        let i = choose|i: int| 0 <= i < w && #[trigger] has_bit(valid_bits, i);
        let m2 = all_bits(n) & !all_bits(w as nat);
        let u2 = valid & !m2 & all_bits(n);
        assert(w < n);
        lemma_all_bits_has(n, i);
        lemma_all_bits_has(w as nat, i);
        lemma_has_bit_and(valid_bits, all_bits(n), i);
        lemma_has_bit_not(all_bits(w as nat), i);
        lemma_has_bit_and(all_bits(n), !all_bits(w as nat), i);
        lemma_has_bit_not(m2, i);
        lemma_has_bit_and(valid, !m2, i);
        lemma_has_bit_and(valid & !m2, all_bits(n), i);
        lemma_top_bit_found(u2, n as int, i);
        assert forall|k: int| w <= k < n implies !has_bit(u2, k) by {
            lemma_all_bits_has(n, k);
            lemma_all_bits_clear(w as nat, k);
            lemma_has_bit_not(all_bits(w as nat), k);
            lemma_has_bit_and(all_bits(n), !all_bits(w as nat), k);
            lemma_has_bit_not(m2, k);
            lemma_has_bit_and(valid, !m2, k);
            lemma_has_bit_and(valid & !m2, all_bits(n), k);
        }
        lemma_top_bit_below(u2, n as int, w);
        lemma_top_bit(u2, n as int);
    }
}

pub fn chisel_rr_winner(valid_bits: u32, mask: u32, n_inputs: usize) -> (r: (usize, u32))
    ensures
        rr_winner(valid_bits, mask, n_inputs) < 0 ==> r == (0usize, mask),
        rr_winner(valid_bits, mask, n_inputs) >= 0 ==> r.0 == rr_winner(valid_bits, mask, n_inputs) && r.1 == all_bits(
            clamp_inputs(n_inputs),
        ) & !(all_bits(rr_winner(valid_bits, mask, n_inputs) as nat)),
        ({
            let n = clamp_inputs(n_inputs);
            let valid = valid_bits & all_bits(n);
            let unmasked = valid & !mask & all_bits(n);
            let w = if top_bit(unmasked, n as int) >= 0 {
                top_bit(unmasked, n as int)
            } else {
                top_bit(valid, n as int)
            };
            &&& w < 0 ==> r == (0usize, mask)
            &&& w >= 0 ==> r.0 == w && r.1 == all_bits(n) & !(all_bits(w as nat))
        }),
{
    let n: u32 = if n_inputs < 1 {
        1
    } else if n_inputs > 32 {
        32
    } else {
        n_inputs as u32
    };
    let all = low_mask(n);
    let valid = valid_bits & all;
    let unmasked = valid & !mask & all;
    proof {
        lemma_top_bit(unmasked, n as int);
        lemma_top_bit(valid, n as int);
    }
    let winner = match top_set_bit(unmasked, n) {
        Some(w) => w,
        None => match top_set_bit(valid, n) {
            Some(w) => w,
            None => {
                return (0, mask);
            },
        },
    };
    let below = low_mask_or_zero(winner);
    (winner as usize, all & !below)
}

/// The low `w` bits set.
fn low_mask_or_zero(w: u32) -> (r: u32)
    requires
        w < 32,
    ensures
        r == all_bits(w as nat),
{
    if w == 0 {
        assert(((1u32 << 0u32) - 1) as u32 == 0u32) by (bit_vector);
        0
    } else {
        low_mask(w)
    }
}

/// Crossbar priority of a client: Gemmini before Muon before external
/// clients.
pub open spec fn client_priority_spec(client: SmemClientKind) -> usize {
    match client {
        SmemClientKind::Gemmini => 0,
        SmemClientKind::Muon => 1,
        SmemClientKind::External => 2,
    }
}

pub fn client_priority(client: SmemClientKind) -> (r: usize)
    ensures
        r == client_priority_spec(client),
{
    match client {
        SmemClientKind::Gemmini => 0,
        SmemClientKind::Muon => 1,
        SmemClientKind::External => 2,
    }
}

/// The characters of the word that marks a Gemmini suite.
pub open spec fn gemmini_word() -> Seq<char> {
    seq!['g', 'e', 'm', 'm', 'i', 'n', 'i']
}

/// `s` holds `w` somewhere.
pub open spec fn holds_word(s: Seq<char>, w: Seq<char>) -> bool {
    exists|i: int| 0 <= i && i + w.len() <= s.len() && #[trigger] s.subrange(i, i + w.len()) == w
}

fn word_at(s: &str, i: usize) -> (r: bool)
    requires
        i + 7 <= s@.len(),
        s@.len() <= usize::MAX,
    ensures
        r == (s@.subrange(i as int, i + 7) == gemmini_word()),
{
    let r = s.get_char(i) == 'g' && s.get_char(i + 1) == 'e' && s.get_char(i + 2) == 'm'
        && s.get_char(i + 3) == 'm' && s.get_char(i + 4) == 'i' && s.get_char(i + 5) == 'n'
        && s.get_char(i + 6) == 'i';
    proof {
        if r {
            assert(s@.subrange(i as int, i + 7) =~= gemmini_word());
        } else {
            if s@.subrange(i as int, i + 7) == gemmini_word() {
                assert(s@.subrange(i as int, i + 7)[0] == 'g');
                assert(s@.subrange(i as int, i + 7)[1] == 'e');
                assert(s@.subrange(i as int, i + 7)[2] == 'm');
                assert(s@.subrange(i as int, i + 7)[3] == 'm');
                assert(s@.subrange(i as int, i + 7)[4] == 'i');
                assert(s@.subrange(i as int, i + 7)[5] == 'n');
                assert(s@.subrange(i as int, i + 7)[6] == 'i');
            }
        }
    }
    r
}

/// Suites whose name mentions `gemmini` come from the Gemmini client; all
/// others from Muon.
pub fn classify_smem_client(suite: &str) -> (r: SmemClientKind)
    ensures
        holds_word(suite@, gemmini_word()) ==> r == SmemClientKind::Gemmini,
        !holds_word(suite@, gemmini_word()) ==> r == SmemClientKind::Muon,
{
    let n = suite.unicode_len();
    if n < 7 {
        return SmemClientKind::Muon;
    }
    let mut i: usize = 0;
    while i <= n - 7
        invariant
            n == suite@.len(),
            n >= 7,
            i <= n - 6,
            forall|j: int| 0 <= j < i ==> #[trigger] suite@.subrange(j, j + 7) != gemmini_word(),
        decreases n - i,
    {
        if word_at(suite, i) {
            proof {
                assert(gemmini_word().len() == 7);
            }
            return SmemClientKind::Gemmini;
        }
        i = i + 1;
    }
    proof {
        assert(gemmini_word().len() == 7);
        if holds_word(suite@, gemmini_word()) {
            let j = choose|j: int|
                0 <= j && j + gemmini_word().len() <= suite@.len() && #[trigger] suite@.subrange(
                    j,
                    j + gemmini_word().len(),
                ) == gemmini_word();
            assert(suite@.subrange(j, j + 7) == gemmini_word());
        }
    }
    SmemClientKind::Muon
}

/// Retry cycle and reason for a refused request: the next cycle when a
/// queue is full, the cycle the server frees up (at least the next one)
/// when it is busy.
pub open spec fn retry_for<T>(now: Cycle, bp: Backpressure<T>) -> (Cycle, RejectReason) {
    match bp {
        Backpressure::QueueFull { .. } => (sat_add(now as int, 1), RejectReason::QueueFull),
        Backpressure::Busy { available_at, .. } => (
            max_spec(available_at, sat_add(now as int, 1)),
            RejectReason::Busy,
        ),
    }
}

pub fn map_backpressure<T>(now: Cycle, backpressure: Backpressure<T>) -> (r: (Cycle, RejectReason))
    ensures
        r == retry_for(now, backpressure),
{
    match backpressure {
        Backpressure::QueueFull { .. } => (now.saturating_add(1), RejectReason::QueueFull),
        Backpressure::Busy { available_at, .. } => (
            max_u64(available_at, now.saturating_add(1)),
            RejectReason::Busy,
        ),
    }
}

/// Port `p` of the group that starts at `base` would refuse a request at
/// `now`.
pub open spec fn port_blocked<T>(ports: Seq<TimedServer<T>>, base: int, p: int, now: Cycle) -> bool {
    ports[base + p].is_full() || ports[base + p].is_warming(now)
}

/// Position in `ports[base..base + count]` of the first port, scanning round
/// robin from `rr_next`, that would accept a request at `now`; the cursor
/// then moves past it.
pub fn pick_ready_port<T>(
    ports: &Vec<TimedServer<T>>,
    base: usize,
    count: usize,
    rr_next: &mut usize,
    now: Cycle,
) -> (r: Option<usize>)
    requires
        base + count <= ports@.len(),
        forall|i: int| base <= i < base + count ==> (#[trigger] ports@[i]).wf(),
    ensures
        count == 0 ==> r is None && *final(rr_next) == *old(rr_next),
        r matches Some(p) ==> p < count && !port_blocked(ports@, base as int, p as int, now)
            && *final(rr_next) == (p + 1) % (count as int),
        r is None ==> *final(rr_next) == *old(rr_next) && forall|p: int|
            0 <= p < count ==> #[trigger] port_blocked(ports@, base as int, p, now),
{
    if count == 0 {
        return None;
    }
    let total = ports.len();
    let start = *rr_next % count;
    let mut offset: usize = 0;
    while offset < count
        invariant
            count > 0,
            start < count,
            offset <= count,
            base + count <= ports@.len(),
            total == ports@.len(),
            forall|i: int| base <= i < base + count ==> (#[trigger] ports@[i]).wf(),
            forall|p: int|
                0 <= p < count && (if p >= start {
                    p - start
                } else {
                    p + count - start
                }) < offset ==> #[trigger] port_blocked(ports@, base as int, p, now),
            *rr_next == *old(rr_next),
        decreases count - offset,
    {
        let idx = if offset < count - start {
            start + offset
        } else {
            offset - (count - start)
        };
        let status = ports[base + idx].accept_status(now);
        match status {
            AcceptStatus::Ready => {
                *rr_next = (idx + 1) % count;
                return Some(idx);
            },
            _ => {},
        }
        offset = offset + 1;
    }
    None
}

} // verus!
