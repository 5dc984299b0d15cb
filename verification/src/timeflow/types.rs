//! Types shared by the timing components.

use crate::timeflow::gmem::GmemRequest;
use crate::timeflow::smem::SmemRequest;
use crate::timeq::Cycle;
use vstd::prelude::*;

verus! {

pub type NodeId = usize;

pub type LinkId = usize;

#[derive(Debug, Clone)]
pub enum CoreFlowPayload {
    Gmem(GmemRequest),
    Smem(SmemRequest),
}

#[derive(Debug, Clone, Copy, PartialEq, Eq, Structural)]
pub enum RejectReason {
    QueueFull,
    Busy,
}

#[derive(Debug, Clone)]
pub struct Reject {
    pub retry_at: Cycle,
    pub reason: RejectReason,
}

#[derive(Debug, Clone)]
pub struct RejectWith<T> {
    pub retry_at: Cycle,
    pub reason: RejectReason,
    pub payload: T,
}

impl<T> RejectWith<T> {
    pub fn new(payload: T, retry_at: Cycle, reason: RejectReason) -> (r: Self)
        ensures
            r.payload == payload,
            r.retry_at == retry_at,
            r.reason == reason,
    {
        Self { payload, retry_at, reason }
    }
}

impl Reject {
    pub fn new(retry_at: Cycle, reason: RejectReason) -> (r: Self)
        ensures
            r.retry_at == retry_at,
            r.reason == reason,
    {
        Self { retry_at, reason }
    }
}

/// The character of the decimal digit `d` (below ten).
pub open spec fn digit_char(d: nat) -> char {
    (48 + d) as char
}

/// The decimal digits of `n`, most significant first, with no leading
/// zero (`0` for zero).
pub open spec fn decimal(n: nat) -> Seq<char>
    decreases n,
{
    if n < 10 {
        seq![digit_char(n)]
    } else {
        decimal(n / 10).push(digit_char(n % 10))
    }
}

/// `prefix`, the decimal digits of `index`, then `suffix`: `format!` of the
/// three, whose `usize` formatting the standard library documents as plain
/// decimal. The text serves only as a label.
#[verifier::external_body]
pub(crate) fn indexed_name(prefix: &str, index: usize, suffix: &str) -> (r: String)
    ensures
        r@ == prefix@ + decimal(index as nat) + suffix@,
{
    format!("{prefix}{index}{suffix}")
}

/// Identity and size of a memory request.
pub trait HasMemoryMetadata {
    spec fn id_spec(&self) -> u64;

    spec fn bytes_spec(&self) -> u32;

    fn id(&self) -> (r: u64)
        ensures
            r == self.id_spec(),
    ;

    fn bytes(&self) -> (r: u32)
        ensures
            r == self.bytes_spec(),
    ;
}

impl HasMemoryMetadata for GmemRequest {
    open spec fn id_spec(&self) -> u64 {
        self.id
    }

    open spec fn bytes_spec(&self) -> u32 {
        self.bytes
    }

    fn id(&self) -> (r: u64) {
        self.id
    }

    fn bytes(&self) -> (r: u32) {
        self.bytes
    }
}

impl HasMemoryMetadata for SmemRequest {
    open spec fn id_spec(&self) -> u64 {
        self.id
    }

    open spec fn bytes_spec(&self) -> u32 {
        self.bytes
    }

    fn id(&self) -> (r: u64) {
        self.id
    }

    fn bytes(&self) -> (r: u32) {
        self.bytes
    }
}

} // verus!
