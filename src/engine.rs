//! The per-query pipeline around resolution: parse the query, answer from
//! the negative cache or the answer cache, or hand the question out for
//! resolution; then cache the result and annotate the response.
use vstd::prelude::*;
use vstd::string::*;
use crate::alchemy::TtlAlchemy;
use crate::cache::{cache_key, elapsed, CacheLayer};
use crate::config::{CacheConfig, EdnsConfig, NegativeCacheConfig, NekoCommentConfig};
use crate::edns::EdnsHandler;
use crate::features::{append_feature_record, feature_owner, summary_spec, txt_record, with_additional, NekoComment, QueryFeatures, MAX_SUMMARY_BYTES};
use crate::negative::NegativeCache;
use crate::text::{ascii_lower, lower_ascii};
use crate::types::{rcode_of, RecordType, ResponseCode};
use crate::wire::{be16, build_response, extract_query_info, layout, parse_packet, read_u16, WireError};

verus! {

/// `response` as `append_feature_record` leaves it for `features`.
pub open spec fn annotated(response: Seq<u8>, enabled: bool, features: QueryFeatures) -> Seq<u8> {
    let text = vstd::utf8::encode_utf8(summary_spec(features));
    if response.len() < 12 || !enabled || text.len() > MAX_SUMMARY_BYTES {
        response
    } else {
        with_additional(response, txt_record(feature_owner(), 1, text))
    }
}

/// A query from which a name and type can be read.
pub open spec fn query_readable(q: Seq<u8>) -> bool {
    q.len() >= 12 && crate::name::name_labels(q, 12) is Some && crate::name::name_end(q, 12) + 4 <= q.len()
}

/// The name of a query's question, as text.
pub open spec fn query_name(q: Seq<u8>) -> Seq<char> {
    crate::text::lossy_text(crate::name::join_labels(crate::name::name_labels(q, 12)->Some_0))
}

/// The type of a query's question.
pub open spec fn query_type(q: Seq<u8>) -> RecordType {
    crate::types::type_of_code(be16(q, crate::name::name_end(q, 12)) as u16)
}

/// The TTL that a cache lookup answers with: the remaining TTL of a fresh
/// entry, 1 for a servable stale one, none otherwise.
pub open spec fn served_remaining(
    m: Map<(Seq<char>, u16), crate::cache::CacheEntry>,
    cfg: CacheConfig,
    k: (Seq<char>, u16),
    now: u64,
) -> Option<int> {
    match m.get(k) {
        Some(e) => {
            let el = elapsed(now, e.inserted_at);
            if el < e.alchemized_ttl {
                Some(e.alchemized_ttl - el)
            } else if cfg.serve_stale && el - e.alchemized_ttl < cfg.stale_ttl_secs {
                Some(1)
            } else {
                None
            }
        },
        None => None,
    }
}

/// How a query starts.
#[derive(Debug)]
pub enum Begin {
    /// Answer at once with these bytes.
    Reply { response: Vec<u8>, features: QueryFeatures },
    /// Resolve the question, then finish the query with the result.
    Resolve { qname: String, qtype: RecordType, features: QueryFeatures },
}

/// The caches and annotations of the query pipeline.
pub struct QueryEngine {
    cache: CacheLayer,
    negative: NegativeCache,
    neko: NekoComment,
    edns: EdnsHandler,
}

/// The response code of a message that has a header.
pub open spec fn rcode_spec(d: Seq<u8>) -> ResponseCode {
    rcode_of((be16(d, 2) as u16 & 0xF) as u8)
}

impl QueryEngine {
    pub closed spec fn wf(&self) -> bool {
        self.cache.wf() && self.negative.wf()
    }

    pub closed spec fn cache_view(&self) -> Map<(Seq<char>, u16), crate::cache::CacheEntry> {
        self.cache@
    }

    pub closed spec fn negative_view(&self) -> Map<(Seq<char>, u16), crate::negative::NegEntry> {
        self.negative@
    }

    pub closed spec fn negative_enabled(&self) -> bool {
        self.negative.config_spec().enabled
    }

    pub closed spec fn annotations_enabled(&self) -> bool {
        self.neko.enabled_spec()
    }

    /// The answer cache's hits, misses and evictions so far.
    pub closed spec fn cache_counters_spec(&self) -> (u64, u64, u64) {
        (self.cache.hits_spec(), self.cache.misses_spec(), self.cache.evictions_spec())
    }

    pub closed spec fn cache_config(&self) -> CacheConfig {
        self.cache.config_spec()
    }

    pub fn new(
        cache: &CacheConfig,
        alchemy: TtlAlchemy,
        negative: &NegativeCacheConfig,
        neko: &NekoCommentConfig,
        edns: &EdnsConfig,
    ) -> (r: QueryEngine)
        requires
            alchemy.wf(),
        ensures
            r.wf(),
    {
        QueryEngine {
            cache: CacheLayer::new(cache, alchemy),
            negative: NegativeCache::new(negative),
            neko: NekoComment::new(neko),
            edns: EdnsHandler::new(edns),
        }
    }

    /// Starts a query: a query that cannot be read is an error (the caller
    /// answers SERVFAIL); a fresh negative-cache entry answers with the
    /// stored NXDOMAIN; a cache hit answers with the cached response, its
    /// TTLs set to the remaining TTL and the query's ID, and counts a hit;
    /// anything else is handed out for resolution.
    pub fn begin_query(&mut self, query: &[u8], now: u64) -> (r: Result<Begin, WireError>)
        requires
            old(self).wf(),
        ensures
            final(self).wf(),
            final(self).annotations_enabled() == old(self).annotations_enabled(),
            final(self).negative_enabled() == old(self).negative_enabled(),
            final(self).cache_config() == old(self).cache_config(),
            !query_readable(query@) ==> r is Err,
            !query_readable(query@) ==> final(self).cache_view() == old(self).cache_view()
                && final(self).negative_view() == old(self).negative_view(),
            query_readable(query@) ==> ({
                let k = cache_key(query_name(query@), query_type(query@));
                let neg = old(self).negative_view();
                let neg_fresh = neg.contains_key(k) && elapsed(now, neg[k].inserted_at) < neg[k].ttl;
                let hit = !(old(self).negative_enabled() && neg_fresh) && served_remaining(
                    old(self).cache_view(),
                    old(self).cache_config(),
                    k,
                    now,
                ) is Some && layout(old(self).cache_view()[k].raw_response@) is Some;
                &&& (old(self).negative_enabled() && neg.contains_key(k) && !neg_fresh) ==> final(self).negative_view()
                    == neg.remove(k)
                &&& !(old(self).negative_enabled() && neg.contains_key(k) && !neg_fresh) ==> final(self).negative_view()
                    == neg
                &&& hit ==> final(self).cache_view() == old(self).cache_view().insert(
                    k,
                    crate::cache::CacheEntry {
                        hit_count: crate::metrics::bump(old(self).cache_view()[k].hit_count),
                        ..old(self).cache_view()[k]
                    },
                )
                &&& !hit ==> final(self).cache_view() == old(self).cache_view()
            }),
            query_readable(query@) ==> ({
                let k = cache_key(query_name(query@), query_type(query@));
                let neg = old(self).negative_view();
                if old(self).negative_enabled() && neg.contains_key(k) && elapsed(now, neg[k].inserted_at)
                    < neg[k].ttl {
                    r matches Ok(Begin::Reply { response, features }) && features.negative_cache_hit
                        && response@ == annotated(neg[k].raw_response@, old(self).annotations_enabled(), features)
                } else {
                    match served_remaining(old(self).cache_view(), old(self).cache_config(), k, now) {
                        Some(rem) => {
                            let raw = old(self).cache_view()[k].raw_response@;
                            if layout(raw) is Some {
                                r matches Ok(Begin::Reply { response, features }) && features.cache_hit
                                    && response@ == annotated(
                                    crate::wire::response_spec(query@, raw, rem as u32),
                                    old(self).annotations_enabled(),
                                    features,
                                )
                            } else {
                                r is Err
                            }
                        },
                        None => r matches Ok(Begin::Resolve { qname, qtype, features }) && qname@
                            == query_name(query@) && qtype == query_type(query@) && features.cache_miss,
                    }
                }
            }),
    {
        let (qname, qtype) = extract_query_info(query)?;
        let mut features = QueryFeatures::new();
        if self.edns.extract_options(query).is_some() {
            features.edns_detected = true;
        }
        match self.negative.check(qname.as_str(), &qtype, now) {
            Some(neg) => {
                features.negative_cache_hit = true;
                let mut response = neg;
                append_feature_record(&mut response, &self.neko, &features);
                return Ok(Begin::Reply { response, features });
            },
            None => {},
        }
        match self.cache.get(qname.as_str(), &qtype, now) {
            Some(cached) => {
                features.cache_hit = true;
                features.ttl_alchemy = true;
                if query.len() < 2 {
                    return Err(WireError::TooShort);
                }
                let mut response = build_response(query, cached.raw_response.as_slice(), cached.remaining_ttl)?;
                append_feature_record(&mut response, &self.neko, &features);
                self.cache.record_hit(qname.as_str(), &qtype);
                return Ok(Begin::Reply { response, features });
            },
            None => {},
        }
        features.cache_miss = true;
        Ok(Begin::Resolve { qname, qtype, features })
    }

    /// Finishes a query with the resolution's result: an NXDOMAIN goes into
    /// the negative cache, a NOERROR response into the answer cache (with
    /// `raw_ttl` as the alchemist's adjustment), and the response comes back
    /// annotated. A result that cannot be read is an error.
    pub fn finish_query<F: Fn(u32, u64, u32) -> u64>(
        &mut self,
        qname: &str,
        qtype: &RecordType,
        result: Vec<u8>,
        source: &str,
        features: &QueryFeatures,
        now: u64,
        raw_ttl: F,
    ) -> (r: Result<Vec<u8>, WireError>)
        requires
            old(self).wf(),
            forall|a: u32, b: u64, c: u32| raw_ttl.requires((a, b, c)),
        ensures
            final(self).wf(),
            final(self).annotations_enabled() == old(self).annotations_enabled(),
            final(self).negative_enabled() == old(self).negative_enabled(),
            final(self).cache_config() == old(self).cache_config(),
            layout(result@) is None ==> r is Err,
            layout(result@) is Some ==> ({
                let k = cache_key(qname@, *qtype);
                &&& r matches Ok(v) && v@ == annotated(result@, old(self).annotations_enabled(), *features)
                &&& rcode_spec(result@) == ResponseCode::NoError ==> final(self).cache_view().contains_key(k)
                    && final(self).cache_view()[k].raw_response@ == result@
                &&& (rcode_spec(result@) == ResponseCode::NxDomain && old(self).negative_enabled())
                    ==> final(self).negative_view().contains_key(k)
                    && final(self).negative_view()[k].raw_response@ == result@
            }),
    {
        let parsed = parse_packet(result.as_slice())?;
        if parsed.header.rcode == ResponseCode::NxDomain {
            self.negative.insert(qname, qtype, result.as_slice(), now);
        }
        if parsed.header.rcode == ResponseCode::NoError {
            self.cache.insert(qname, qtype, result.as_slice(), source, now, raw_ttl);
        }
        let mut response = result;
        append_feature_record(&mut response, &self.neko, features);
        Ok(response)
    }

    /// Keys of cache entries near expiry, for the prefetch loop.
    pub fn prefetch_candidates(&self, now: u64, ratio_num: u64, ratio_den: u64) -> (r: Vec<(String, RecordType)>)
        requires
            self.wf(),
            0 < ratio_den,
            ratio_num <= ratio_den,
        ensures
            forall|i: int|
                0 <= i < r@.len() ==> {
                    let k = (#[trigger] r@[i].0@, crate::types::type_code(r@[i].1));
                    self.cache_view().contains_key(k) && crate::cache::near_expiry(
                        self.cache_view()[k],
                        now,
                        ratio_num,
                        ratio_den,
                    )
                },
            forall|k: (Seq<char>, u16)|
                #[trigger] self.cache_view().contains_key(k) && crate::cache::near_expiry(
                    self.cache_view()[k],
                    now,
                    ratio_num,
                    ratio_den,
                ) ==> exists|i: int| 0 <= i < r@.len() && (r@[i].0@, crate::types::type_code(r@[i].1)) == k,
    {
        self.cache.get_prefetch_candidates(now, ratio_num, ratio_den)
    }

    /// The number of answer-cache and negative-cache entries.
    pub fn sizes(&self) -> (r: (usize, usize))
        requires
            self.wf(),
        ensures
            r.0 == self.cache_view().len(),
            r.1 == self.negative_view().len(),
    {
        (self.cache.len(), self.negative.len())
    }

    /// The hit count, rdata-change count and TTL of a cached answer.
    pub fn cache_entry_stats(&self, name: &str, qtype: &RecordType) -> (r: Option<(u64, u32, u32)>)
        requires
            self.wf(),
        ensures
            match self.cache_view().get(cache_key(name@, *qtype)) {
                Some(e) => r == Some((e.hit_count, e.rdata_changes, e.alchemized_ttl)),
                None => r is None,
            },
    {
        self.cache.entry_stats(name, qtype)
    }

    /// The answer cache's hit, miss and eviction counters.
    pub fn cache_counters(&self) -> (r: (u64, u64, u64))
        ensures
            r == self.cache_counters_spec(),
    {
        self.cache.counters()
    }
}

/// A local zone: queries for its domain or any name under it go to the
/// designated server.
#[derive(Debug, Clone)]
pub struct LocalZone {
    pub domain: String,
    pub server: String,
    pub port: u16,
    pub timeout_ms: u64,
}

/// Whether `name` is `domain` or a name under it (both lower-cased).
pub open spec fn in_zone(name: Seq<char>, domain: Seq<char>) -> bool {
    name == domain || (name.len() > domain.len() && name.subrange(
        name.len() - domain.len() - 1,
        name.len() as int,
    ) == seq!['.'] + domain)
}

fn ends_with_zone(name: &str, domain: &str) -> (r: bool)
    ensures
        r == in_zone(name@, domain@),
{
    let n = name.unicode_len();
    let d = domain.unicode_len();
    if n == d {
        let mut i: usize = 0;
        while i < n
            invariant
                n == name@.len(),
                n == domain@.len(),
                i <= n,
                forall|j: int| 0 <= j < i ==> name@[j] == domain@[j],
            decreases n - i,
        {
            if name.get_char(i) != domain.get_char(i) {
                assert(name@[i as int] != domain@[i as int]);
                return false;
            }
            i = i + 1;
        }
        assert(name@ =~= domain@);
        return true;
    }
    if n <= d {
        return false;
    }
    let start = n - d - 1;
    if name.get_char(start) != '.' {
        assert(name@.subrange(start as int, n as int)[0] != (seq!['.'] + domain@)[0]);
        return false;
    }
    let mut i: usize = 0;
    while i < d
        invariant
            n == name@.len(),
            d == domain@.len(),
            start == n - d - 1,
            i <= d,
            name@[start as int] == '.',
            forall|j: int| 0 <= j < i ==> name@[start + 1 + j] == domain@[j],
        decreases d - i,
    {
        if name.get_char(start + 1 + i) != domain.get_char(i) {
            assert(name@.subrange(start as int, n as int)[1 + i] != (seq!['.'] + domain@)[1 + i]);
            return false;
        }
        i = i + 1;
    }
    assert(name@.subrange(start as int, n as int) =~= seq!['.'] + domain@);
    true
}

/// The first local zone that `qname` falls in, compared lower-cased.
pub fn local_zone_match(qname: &str, zones: &Vec<LocalZone>) -> (r: Option<usize>)
    ensures
        match r {
            Some(i) => i < zones@.len() && in_zone(
                qname@.map_values(|c: char| ascii_lower(c)),
                zones@[i as int].domain@.map_values(|c: char| ascii_lower(c)),
            ) && forall|j: int|
                0 <= j < i ==> !in_zone(
                    qname@.map_values(|c: char| ascii_lower(c)),
                    (#[trigger] zones@[j]).domain@.map_values(|c: char| ascii_lower(c)),
                ),
            None => forall|j: int|
                0 <= j < zones@.len() ==> !in_zone(
                    qname@.map_values(|c: char| ascii_lower(c)),
                    (#[trigger] zones@[j]).domain@.map_values(|c: char| ascii_lower(c)),
                ),
        },
{
    let q = lower_ascii(qname);
    let mut i: usize = 0;
    while i < zones.len()
        invariant
            i <= zones@.len(),
            q@ == qname@.map_values(|c: char| ascii_lower(c)),
            forall|j: int|
                0 <= j < i ==> !in_zone(q@, (#[trigger] zones@[j]).domain@.map_values(|c: char| ascii_lower(c))),
        decreases zones@.len() - i,
    {
        let d = lower_ascii(zones[i].domain.as_str());
        if ends_with_zone(q.as_str(), d.as_str()) {
            return Some(i);
        }
        i = i + 1;
    }
    None
}

/// Gives a response from recursion or a local zone the query's transaction
/// ID and sets RA; a response shorter than a header is left alone.
pub fn patch_response(response: &mut Vec<u8>, query: &[u8])
    ensures
        (old(response)@.len() >= 12 && query@.len() >= 2) ==> final(response)@ == old(response)@.update(
            0,
            query@[0],
        ).update(1, query@[1]).update(3, old(response)@[3] | 0x80u8),
        (old(response)@.len() < 12 || query@.len() < 2) ==> final(response)@ == old(response)@,
{
    if response.len() >= 12 && query.len() >= 2 {
        response.set(0, query[0]);
        response.set(1, query[1]);
        let b = response[3] | 0x80u8;
        response.set(3, b);
    }
}

/// The TTL of the first answer record, 0 when there is none.
pub fn first_answer_ttl(response: &[u8]) -> (r: u32)
    ensures
        match layout(response@) {
            Some(l) => if l.answers.len() > 0 {
                r == crate::wire::be32(response@, crate::name::name_end(response@, l.answers[0]) + 4)
            } else {
                r == 0
            },
            None => r == 0,
        },
{
    match parse_packet(response) {
        Ok(p) => {
            if p.answers.len() > 0 {
                assert(crate::wire::record_matches(p.answers@[0], response@, layout(response@)->Some_0.answers[0]));
                p.answers[0].ttl
            } else {
                0
            }
        },
        Err(_) => 0,
    }
}

/// Whether a datagram answers the outstanding query with ID `id`: one that
/// does not is a stale reply to an earlier query on a pooled socket.
pub fn matches_query_id(datagram: &[u8], id: u16) -> (r: bool)
    ensures
        r == (datagram@.len() >= 2 && be16(datagram@, 0) == id),
{
    datagram.len() >= 2 && read_u16(datagram, 0) == id
}

} // verus!
