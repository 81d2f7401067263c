//! The TTL alchemist's bounds: the TTL that a cache entry gets is the
//! frequency- and volatility-adjusted TTL, or the original TTL when the
//! alchemist is off, held within `[min_ttl, max_ttl]`.
use vstd::prelude::*;

verus! {

/// `v` held within `[lo, hi]`.
pub open spec fn clamp_u64(v: int, lo: int, hi: int) -> int {
    if v < lo {
        lo
    } else if v > hi {
        hi
    } else {
        v
    }
}

/// The alchemist's switch and bounds.
#[derive(Debug, Clone, Copy)]
pub struct TtlAlchemy {
    pub enabled: bool,
    pub min_ttl: u32,
    pub max_ttl: u32,
}

impl TtlAlchemy {
    pub open spec fn wf(&self) -> bool {
        self.min_ttl <= self.max_ttl
    }

    /// The TTL for an entry: `raw` (the adjusted TTL) when enabled, else
    /// `original_ttl`, clamped to the bounds.
    pub open spec fn ttl_for(&self, original_ttl: u32, raw: u64) -> int {
        if self.enabled {
            clamp_u64(raw as int, self.min_ttl as int, self.max_ttl as int)
        } else {
            clamp_u64(original_ttl as int, self.min_ttl as int, self.max_ttl as int)
        }
    }

    pub fn new(enabled: bool, min_ttl: u32, max_ttl: u32) -> (r: TtlAlchemy)
        ensures
            r.enabled == enabled && r.min_ttl == min_ttl && r.max_ttl == max_ttl,
    {
        TtlAlchemy { enabled, min_ttl, max_ttl }
    }

    /// Clamps the adjusted TTL `raw` (or, when disabled, `original_ttl`) to
    /// `[min_ttl, max_ttl]`.
    pub fn calculate_ttl(&self, original_ttl: u32, raw: u64) -> (r: u32)
        requires
            self.wf(),
        ensures
            r == self.ttl_for(original_ttl, raw),
            self.min_ttl <= r <= self.max_ttl,
    {
        let v: u64 = if self.enabled {
            raw
        } else {
            original_ttl as u64
        };
        if v < self.min_ttl as u64 {
            self.min_ttl
        } else if v > self.max_ttl as u64 {
            self.max_ttl
        } else {
            v as u32
        }
    }
}

/// Whatever the inputs, the TTL lies within `[min_ttl, max_ttl]`.
pub proof fn lemma_alchemy_bounds(a: TtlAlchemy, original_ttl: u32, raw: u64)
    requires
        a.wf(),
    ensures
        a.min_ttl <= a.ttl_for(original_ttl, raw) <= a.max_ttl,
{
}

/// Clamping keeps order: a larger adjusted TTL never gives a smaller TTL.
/// An adjustment non-decreasing in hits and non-increasing in rdata changes
/// therefore stays so after clamping.
pub proof fn lemma_alchemy_monotone(a: TtlAlchemy, original_ttl: u32, raw1: u64, raw2: u64)
    requires
        a.wf(),
        raw1 <= raw2,
    ensures
        a.ttl_for(original_ttl, raw1) <= a.ttl_for(original_ttl, raw2),
{
}

/// With no hits and no rdata changes an adjustment that leaves the TTL as
/// it was gives exactly the clamped original TTL.
pub proof fn lemma_alchemy_identity(a: TtlAlchemy, original_ttl: u32)
    requires
        a.wf(),
    ensures
        a.ttl_for(original_ttl, original_ttl as u64) == clamp_u64(
            original_ttl as int,
            a.min_ttl as int,
            a.max_ttl as int,
        ),
{
}

} // verus!
