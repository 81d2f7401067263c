//! Upstream forwarding bookkeeping: per-upstream query and failure totals,
//! the ring of recent latencies, the disabled flag, and which upstreams a
//! race uses.
use vstd::prelude::*;

verus! {

/// How many recent latencies an upstream keeps.
pub const LATENCY_RING: usize = 100;

/// The outcome of a successful race.
#[derive(Debug)]
pub struct UpstreamResult {
    pub response: Vec<u8>,
    pub upstream_name: String,
    pub latency_ms: u64,
    pub original_ttl: u32,
}

/// The statistics of one upstream.
#[derive(Debug)]
pub struct UpstreamStats {
    pub name: String,
    pub total_queries: u64,
    pub total_failures: u64,
    pub latencies_ms: Vec<u64>,
    pub disabled: bool,
}

/// The last at most 100 of `v`.
pub open spec fn last_ring(v: Seq<u64>) -> Seq<u64> {
    if v.len() > LATENCY_RING {
        v.skip(v.len() - LATENCY_RING)
    } else {
        v
    }
}

impl UpstreamStats {
    pub fn new(name: String) -> (r: UpstreamStats)
        ensures
            r.name == name,
            r.total_queries == 0,
            r.total_failures == 0,
            r.latencies_ms@.len() == 0,
            !r.disabled,
    {
        UpstreamStats { name, total_queries: 0, total_failures: 0, latencies_ms: Vec::new(), disabled: false }
    }

    /// Adds a latency sample, keeping the last 100.
    pub fn record_latency(&mut self, ms: u64)
        requires
            old(self).latencies_ms@.len() <= LATENCY_RING,
        ensures
            final(self).latencies_ms@ == last_ring(old(self).latencies_ms@.push(ms)),
            final(self).latencies_ms@.len() <= LATENCY_RING,
            final(self).total_queries == old(self).total_queries,
            final(self).total_failures == old(self).total_failures,
    {
        self.latencies_ms.push(ms);
        if self.latencies_ms.len() > LATENCY_RING {
            self.latencies_ms.remove(0);
            assert(self.latencies_ms@ =~= last_ring(old(self).latencies_ms@.push(ms)));
        }
    }

    /// Counts a query to this upstream, and a failure when it failed.
    pub fn record_outcome(&mut self, ok: bool)
        ensures
            final(self).total_queries == crate::metrics::bump(old(self).total_queries),
            final(self).total_failures == if ok {
                old(self).total_failures
            } else {
                crate::metrics::bump(old(self).total_failures)
            },
            final(self).latencies_ms@ == old(self).latencies_ms@,
    {
        if self.total_queries < u64::MAX {
            self.total_queries = self.total_queries + 1;
        }
        if !ok && self.total_failures < u64::MAX {
            self.total_failures = self.total_failures + 1;
        }
    }
}

/// The upstreams that a race uses: the enabled ones; when all are disabled,
/// every one is re-enabled and used.
pub fn race_participants(ups: &mut Vec<UpstreamStats>) -> (r: Vec<usize>)
    ensures
        final(ups)@.len() == old(ups)@.len(),
        (exists|i: int| 0 <= i < old(ups)@.len() && !(#[trigger] old(ups)@[i]).disabled) ==> (forall|i: int|
            0 <= i < r@.len() ==> r@[i] < old(ups)@.len() && !old(ups)@[r@[i] as int].disabled)
            && (forall|i: int| 0 <= i < old(ups)@.len() && !(#[trigger] old(ups)@[i]).disabled ==> r@.contains(i as usize))
            && final(ups)@ == old(ups)@,
        (forall|i: int| 0 <= i < old(ups)@.len() ==> (#[trigger] old(ups)@[i]).disabled) ==> r@.len() == old(ups)@.len()
            && (forall|i: int| 0 <= i < r@.len() ==> #[trigger] r@[i] == i) && forall|i: int|
            0 <= i < final(ups)@.len() ==> !(#[trigger] final(ups)@[i]).disabled,
{
    let mut enabled: Vec<usize> = Vec::new();
    let mut i: usize = 0;
    while i < ups.len()
        invariant
            i <= ups@.len(),
            ups@ == old(ups)@,
            forall|j: int| 0 <= j < enabled@.len() ==> enabled@[j] < i && !ups@[enabled@[j] as int].disabled,
            forall|j: int| 0 <= j < i && !(#[trigger] ups@[j]).disabled ==> enabled@.contains(j as usize),
        decreases ups@.len() - i,
    {
        let ghost before = enabled@;
        if !ups[i].disabled {
            enabled.push(i);
            assert(enabled@[enabled@.len() - 1] == i);
        }
        proof {
            assert forall|j: int| 0 <= j < i + 1 && !(#[trigger] ups@[j]).disabled implies enabled@.contains(j as usize) by {
                if j < i {
                    let t = choose|t: int| 0 <= t < before.len() && before[t] == j as usize;
                    assert(enabled@[t] == j as usize);
                }
            }
        }
        i = i + 1;
    }
    if enabled.len() > 0 {
        assert(!old(ups)@[enabled@[0] as int].disabled);
        return enabled;
    }
    proof {
        assert forall|j: int| 0 <= j < old(ups)@.len() implies (#[trigger] old(ups)@[j]).disabled by {
            if !old(ups)@[j].disabled {
                assert(enabled@.contains(j as usize));
            }
        }
    }
    let mut all: Vec<usize> = Vec::new();
    let mut k: usize = 0;
    while k < ups.len()
        invariant
            k <= ups@.len(),
            ups@.len() == old(ups)@.len(),
            all@.len() == k,
            forall|j: int| 0 <= j < k ==> #[trigger] all@[j] == j,
            forall|j: int| 0 <= j < k ==> !(#[trigger] ups@[j]).disabled,
        decreases ups@.len() - k,
    {
        let mut u = ups.remove(k);
        u.disabled = false;
        ups.insert(k, u);
        all.push(k);
        k = k + 1;
    }
    all
}

} // verus!
