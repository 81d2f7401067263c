//! Query counters of the resolver.
use vstd::prelude::*;
use crate::types::RecordType;

verus! {

/// One more, stopping at the largest value.
pub open spec fn bump(v: u64) -> u64 {
    if v < u64::MAX {
        (v + 1) as u64
    } else {
        v
    }
}

fn inc(v: &mut u64)
    ensures
        *final(v) == bump(*old(v)),
{
    if *v < u64::MAX {
        *v = *v + 1;
    }
}

/// Counters updated from query processing.
#[derive(Debug, Clone, Default)]
pub struct MetricsCounters {
    pub queries_total: u64,
    pub cache_hits: u64,
    pub cache_misses: u64,
    pub recursive_queries: u64,
    pub recursive_successes: u64,
    pub recursive_failures: u64,
    pub upstream_queries: u64,
    pub local_zone_queries: u64,
    pub negative_cache_hits: u64,
    pub prefetches: u64,
    pub stale_serves: u64,
    pub tcp_queries: u64,
    pub servfail_total: u64,
    pub nxdomain_total: u64,
    pub noerror_total: u64,
    pub query_type_a: u64,
    pub query_type_aaaa: u64,
    pub query_type_cname: u64,
    pub query_type_mx: u64,
    pub query_type_ns: u64,
    pub query_type_ptr: u64,
    pub query_type_soa: u64,
    pub query_type_srv: u64,
    pub query_type_txt: u64,
    pub query_type_any: u64,
    pub query_type_https: u64,
    pub query_type_other: u64,
    /// The start time, in seconds of the caller's clock.
    pub start_time: u64,
    pub recursive_latency_sum_us: u64,
    pub recursive_latency_count: u64,
}

impl MetricsCounters {
    /// All counters zero, started at `start_time`.
    pub fn new(start_time: u64) -> (r: MetricsCounters)
        ensures
            r.queries_total == 0 && r.cache_hits == 0 && r.cache_misses == 0 && r.query_type_a == 0
                && r.query_type_other == 0 && r.recursive_latency_sum_us == 0
                && r.recursive_latency_count == 0 && r.start_time == start_time,
    {
        MetricsCounters {
            queries_total: 0,
            cache_hits: 0,
            cache_misses: 0,
            recursive_queries: 0,
            recursive_successes: 0,
            recursive_failures: 0,
            upstream_queries: 0,
            local_zone_queries: 0,
            negative_cache_hits: 0,
            prefetches: 0,
            stale_serves: 0,
            tcp_queries: 0,
            servfail_total: 0,
            nxdomain_total: 0,
            noerror_total: 0,
            query_type_a: 0,
            query_type_aaaa: 0,
            query_type_cname: 0,
            query_type_mx: 0,
            query_type_ns: 0,
            query_type_ptr: 0,
            query_type_soa: 0,
            query_type_srv: 0,
            query_type_txt: 0,
            query_type_any: 0,
            query_type_https: 0,
            query_type_other: 0,
            start_time,
            recursive_latency_sum_us: 0,
            recursive_latency_count: 0,
        }
    }

    /// Counts a query of type `qtype` in its per-type counter (HTTPS is type
    /// 65; types without a counter of their own count as other).
    pub fn inc_query_type(&mut self, qtype: &RecordType)
        ensures
            *qtype == RecordType::A ==> final(self).query_type_a == bump(old(self).query_type_a),
            *qtype == RecordType::AAAA ==> final(self).query_type_aaaa == bump(old(self).query_type_aaaa),
            *qtype == RecordType::CNAME ==> final(self).query_type_cname == bump(old(self).query_type_cname),
            *qtype == RecordType::MX ==> final(self).query_type_mx == bump(old(self).query_type_mx),
            *qtype == RecordType::NS ==> final(self).query_type_ns == bump(old(self).query_type_ns),
            *qtype == RecordType::PTR ==> final(self).query_type_ptr == bump(old(self).query_type_ptr),
            *qtype == RecordType::SOA ==> final(self).query_type_soa == bump(old(self).query_type_soa),
            *qtype == RecordType::SRV ==> final(self).query_type_srv == bump(old(self).query_type_srv),
            *qtype == RecordType::TXT ==> final(self).query_type_txt == bump(old(self).query_type_txt),
            *qtype == RecordType::ANY ==> final(self).query_type_any == bump(old(self).query_type_any),
            *qtype == RecordType::Unknown(65) ==> final(self).query_type_https == bump(old(self).query_type_https),
            (*qtype == RecordType::OPT || (*qtype matches RecordType::Unknown(v) && v != 65)) ==> final(self).query_type_other == bump(old(self).query_type_other),
            final(self).queries_total == old(self).queries_total,
    {
        match qtype {
            RecordType::A => inc(&mut self.query_type_a),
            RecordType::AAAA => inc(&mut self.query_type_aaaa),
            RecordType::CNAME => inc(&mut self.query_type_cname),
            RecordType::MX => inc(&mut self.query_type_mx),
            RecordType::NS => inc(&mut self.query_type_ns),
            RecordType::PTR => inc(&mut self.query_type_ptr),
            RecordType::SOA => inc(&mut self.query_type_soa),
            RecordType::SRV => inc(&mut self.query_type_srv),
            RecordType::TXT => inc(&mut self.query_type_txt),
            RecordType::ANY => inc(&mut self.query_type_any),
            RecordType::Unknown(65) => inc(&mut self.query_type_https),
            _ => inc(&mut self.query_type_other),
        }
    }

    /// Adds one recursive-resolution latency sample, in microseconds.
    pub fn record_recursive_latency(&mut self, latency_us: u64)
        ensures
            final(self).recursive_latency_sum_us == if old(self).recursive_latency_sum_us + latency_us
                <= u64::MAX {
                old(self).recursive_latency_sum_us + latency_us
            } else {
                u64::MAX as int
            },
            final(self).recursive_latency_count == bump(old(self).recursive_latency_count),
    {
        self.recursive_latency_sum_us = self.recursive_latency_sum_us.saturating_add(latency_us);
        inc(&mut self.recursive_latency_count);
    }
}

} // verus!
