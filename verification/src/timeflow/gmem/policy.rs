//! Address-to-line and line-to-bank mapping of the global-memory model,
//! and the policy that sizes the caches and decides writebacks.

use vstd::prelude::*;

verus! {

/// One xor-shift round of the mixer.
pub open spec fn xor_shift33(x: u64) -> u64 {
    x ^ (x >> 33u64)
}

/// The 64-bit finalizer used to spread lines over banks: xor-shift by 33,
/// multiply by 0xff51afd7ed558ccd, xor-shift, multiply by
/// 0xc4ceb9fe1a85ec53, xor-shift (multiplications wrap).
pub open spec fn hash_spec(x: u64) -> u64 {
    let a = xor_shift33(x);
    let b = a.wrapping_mul(0xff51afd7ed558ccdu64);
    let c = xor_shift33(b);
    let d = c.wrapping_mul(0xc4ceb9fe1a85ec53u64);
    xor_shift33(d)
}

pub fn hash_u64(x: u64) -> (r: u64)
    ensures
        r == hash_spec(x),
{
    let mut x = x;
    x ^= x >> 33;
    x = x.wrapping_mul(0xff51afd7ed558ccd);
    x ^= x >> 33;
    x = x.wrapping_mul(0xc4ceb9fe1a85ec53);
    x ^= x >> 33;
    x
}

/// Line holding byte `addr` for lines of `line_bytes` bytes (at least one).
pub open spec fn line_addr_spec(addr: u64, line_bytes: u32) -> u64 {
    let bytes: u64 = if line_bytes >= 1 {
        line_bytes as u64
    } else {
        1
    };
    addr / bytes
}

pub fn line_addr(addr: u64, line_bytes: u32) -> (r: u64)
    ensures
        r == line_addr_spec(addr, line_bytes),
{
    let bytes: u64 = if line_bytes >= 1 {
        line_bytes as u64
    } else {
        1
    };
    addr / bytes
}

/// Bank of `line_addr` among `banks` banks, decorrelated by `salt`; bank 0
/// when there are no banks.
pub open spec fn bank_for_spec(line_addr: u64, banks: u64, salt: u64) -> usize {
    if banks == 0 {
        0
    } else {
        (hash_spec(line_addr ^ salt) % banks) as usize
    }
}

pub fn bank_for(line_addr: u64, banks: u64, salt: u64) -> (r: usize)
    ensures
        r == bank_for_spec(line_addr, banks, salt),
        0 < banks <= usize::MAX ==> r < banks,
{
    if banks == 0 {
        return 0;
    }
    let h = hash_u64(line_addr ^ salt);
    (h % banks) as usize
}

/// A selection of keys (lines) decided per key from its hash: none, all, or
/// those whose hash is at most a bound.
#[derive(Debug, Clone, Copy, PartialEq, Eq, Structural)]
pub enum HashRule {
    Never,
    Always,
    /// The keys whose hash is at most the bound.
    HashAtMost(u64),
}

/// `rule` selects the key `key`.
pub open spec fn rule_applies(rule: HashRule, key: u64) -> bool {
    match rule {
        HashRule::Never => false,
        HashRule::Always => true,
        HashRule::HashAtMost(bound) => hash_spec(key) <= bound,
    }
}

pub fn hash_rule_holds(rule: HashRule, key: u64) -> (r: bool)
    ensures
        r == rule_applies(rule, key),
{
    match rule {
        HashRule::Never => false,
        HashRule::Always => true,
        HashRule::HashAtMost(bound) => hash_u64(key) <= bound,
    }
}

/// Geometry of the caches, whether the per-core L0 exists, how misses
/// are written back, and the flush parameters.
#[derive(Debug, Clone, Copy)]
pub struct GmemPolicyConfig {
    pub l0_enabled: bool,
    pub l1_writeback: HashRule,
    pub l2_writeback: HashRule,
    pub l0_line_bytes: u32,
    pub l1_line_bytes: u32,
    pub l2_line_bytes: u32,
    pub l0_sets: usize,
    pub l0_ways: usize,
    pub l1_sets: usize,
    pub l1_ways: usize,
    pub l2_sets: usize,
    pub l2_ways: usize,
    pub l0_flush_mmio_base: u64,
    pub l0_flush_mmio_stride: u64,
    pub l0_flush_mmio_size: u64,
    pub flush_bytes: u32,
    pub seed: u64,
}

impl GmemPolicyConfig {
    /// The first of the sizes that must be positive and is zero, as the
    /// message that names it; none when all are positive.
    pub open spec fn first_invalid(self) -> Option<Seq<char>> {
        if self.l0_line_bytes == 0 {
            Some("l0_line_bytes must be > 0"@)
        } else if self.l1_line_bytes == 0 {
            Some("l1_line_bytes must be > 0"@)
        } else if self.l2_line_bytes == 0 {
            Some("l2_line_bytes must be > 0"@)
        } else if self.l0_sets == 0 {
            Some("l0_sets must be > 0"@)
        } else if self.l1_sets == 0 {
            Some("l1_sets must be > 0"@)
        } else if self.l2_sets == 0 {
            Some("l2_sets must be > 0"@)
        } else if self.l0_ways == 0 {
            Some("l0_ways must be > 0"@)
        } else if self.l1_ways == 0 {
            Some("l1_ways must be > 0"@)
        } else if self.l2_ways == 0 {
            Some("l2_ways must be > 0"@)
        } else if self.flush_bytes == 0 {
            Some("flush_bytes must be > 0"@)
        } else {
            None
        }
    }

    /// Check that the line sizes, set and way counts and the flush size are
    /// positive; the error names the first that is not.
    pub fn ensure_valid(&self) -> (r: Result<(), &'static str>)
        ensures
            r is Ok <==> self.first_invalid() is None,
            r matches Err(m) ==> self.first_invalid() == Some(m@),
    {
        if self.l0_line_bytes == 0 {
            return Err("l0_line_bytes must be > 0");
        }
        if self.l1_line_bytes == 0 {
            return Err("l1_line_bytes must be > 0");
        }
        if self.l2_line_bytes == 0 {
            return Err("l2_line_bytes must be > 0");
        }
        if self.l0_sets == 0 {
            return Err("l0_sets must be > 0");
        }
        if self.l1_sets == 0 {
            return Err("l1_sets must be > 0");
        }
        if self.l2_sets == 0 {
            return Err("l2_sets must be > 0");
        }
        if self.l0_ways == 0 {
            return Err("l0_ways must be > 0");
        }
        if self.l1_ways == 0 {
            return Err("l1_ways must be > 0");
        }
        if self.l2_ways == 0 {
            return Err("l2_ways must be > 0");
        }
        if self.flush_bytes == 0 {
            return Err("flush_bytes must be > 0");
        }
        Ok(())
    }
}

/// One line in ten is written back: the lines whose hash is at most a
/// tenth of the hash range.
pub open spec fn tenth_rule() -> HashRule {
    HashRule::HashAtMost(0x1999_9999_9999_9a00u64)
}

impl Default for GmemPolicyConfig {
    fn default() -> (r: Self)
        ensures
            r.l0_enabled,
            r.l1_writeback == tenth_rule(),
            r.l2_writeback == tenth_rule(),
            r.l0_line_bytes == 64,
            r.l1_line_bytes == 32,
            r.l2_line_bytes == 32,
            r.l0_sets == 512,
            r.l0_ways == 1,
            r.l1_sets == 512,
            r.l1_ways == 4,
            r.l2_sets == 512,
            r.l2_ways == 8,
            r.l0_flush_mmio_base == 0x0008_0300,
            r.l0_flush_mmio_stride == 0x200,
            r.l0_flush_mmio_size == 0x100,
            r.flush_bytes == 4096,
            r.seed == 0,
    {
        Self {
            l0_enabled: true,
            l1_writeback: HashRule::HashAtMost(0x1999_9999_9999_9a00),
            l2_writeback: HashRule::HashAtMost(0x1999_9999_9999_9a00),
            l0_line_bytes: 64,
            l1_line_bytes: 32,
            l2_line_bytes: 32,
            l0_sets: 512,
            l0_ways: 1,
            l1_sets: 512,
            l1_ways: 4,
            l2_sets: 512,
            l2_ways: 8,
            // L0i flush sits at the peripheral base and L0d flush 0x100 above
            // it; each core owns 0x200 bytes of these registers.
            l0_flush_mmio_base: 0x0008_0300,
            l0_flush_mmio_stride: 0x200,
            l0_flush_mmio_size: 0x100,
            flush_bytes: 4096,
            seed: 0,
        }
    }
}

} // verus!
