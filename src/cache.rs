//! The answer cache: raw responses keyed by (lower-cased name, type), with
//! remaining-TTL lookups, serve-stale, TTL alchemy on insert, volatility
//! tracking by rdata hash, score-based eviction and prefetch candidates.
use vstd::prelude::*;
use vstd::string::*;
use crate::alchemy::TtlAlchemy;
use crate::config::CacheConfig;
use crate::store::{key_view, CacheKey, KeyedStore};
use crate::text::{ascii_lower, lower_ascii};
use crate::types::{type_code, type_of_code, RecordType};
use crate::wire::{
    be16, be32, be_bytes16, layout, parse_packet, record_matches, records_match, DnsRecord, TYPE_OPT,
};
use crate::name::name_end;

verus! {

/// The TTL that a response without records gets.
pub const DEFAULT_TTL: u32 = 300;

/// The smallest TTL among the records at `starts`, OPT records aside.
pub open spec fn min_ttl_over(d: Seq<u8>, starts: Seq<int>) -> Option<int>
    decreases starts.len(),
{
    if starts.len() == 0 {
        None
    } else {
        let rest = min_ttl_over(d, starts.drop_last());
        let ne = name_end(d, starts.last());
        if be16(d, ne) == TYPE_OPT {
            rest
        } else {
            let t = be32(d, ne + 4);
            match rest {
                Some(m) => Some(if t < m {
                    t
                } else {
                    m
                }),
                None => Some(t),
            }
        }
    }
}

/// The smallest TTL of the answer and authority records of a response.
pub open spec fn response_min_ttl(d: Seq<u8>) -> Option<int> {
    match layout(d) {
        Some(l) => min_ttl_over(d, l.answers + l.authorities),
        None => None,
    }
}

/// The TTL that an entry starts from: the smallest record TTL, or 300.
pub open spec fn original_ttl_of(d: Seq<u8>) -> int {
    match response_min_ttl(d) {
        Some(t) => t,
        None => DEFAULT_TTL as int,
    }
}

/// The rdata of the records at `starts`, each preceded by its length.
pub open spec fn rdata_stream(d: Seq<u8>, starts: Seq<int>) -> Seq<u8>
    decreases starts.len(),
{
    if starts.len() == 0 {
        Seq::empty()
    } else {
        let ne = name_end(d, starts.last());
        let len = be16(d, ne + 8);
        rdata_stream(d, starts.drop_last()) + be_bytes16(len as u16) + d.subrange(
            ne + 10,
            ne + 10 + len,
        )
    }
}

/// The answer rdata of a response, in order; empty where it does not parse.
pub open spec fn answer_stream(d: Seq<u8>) -> Seq<u8> {
    match layout(d) {
        Some(l) => rdata_stream(d, l.answers),
        None => Seq::empty(),
    }
}

/// The FNV-1a offset basis.
pub const FNV_OFFSET: u64 = 0xcbf29ce484222325;

/// The FNV-1a prime.
pub const FNV_PRIME: u64 = 0x100000001b3;

/// One FNV-1a step.
pub open spec fn fnv_step(h: u64, b: u8) -> u64 {
    (((h ^ (b as u64)) as int * FNV_PRIME as int) % 0x1_0000_0000_0000_0000) as u64
}

/// The FNV-1a hash of a byte sequence.
pub open spec fn fnv(s: Seq<u8>) -> u64
    decreases s.len(),
{
    if s.len() == 0 {
        FNV_OFFSET
    } else {
        fnv_step(fnv(s.drop_last()), s.last())
    }
}

/// The volatility hash of a response: FNV-1a of its answer rdata.
pub open spec fn rdata_hash_of(d: Seq<u8>) -> u64 {
    fnv(answer_stream(d))
}

/// The exact product of two 64-bit values.
pub(crate) fn mul_wide(a: u64, b: u64) -> (r: u128)
    ensures
        r == a * b,
{
    assert((a as int) * (b as int) <= 0xFFFF_FFFF_FFFF_FFFFint * 0xFFFF_FFFF_FFFF_FFFFint) by (nonlinear_arith)
        requires
            0 <= a <= 0xFFFF_FFFF_FFFF_FFFFint,
            0 <= b <= 0xFFFF_FFFF_FFFF_FFFFint,
    ;
    (a as u128) * (b as u128)
}

fn fnv_byte(h: u64, b: u8) -> (r: u64)
    ensures
        r == fnv_step(h, b),
{
    let x: u64 = h ^ (b as u64);
    let p: u128 = mul_wide(x, FNV_PRIME);
    (p % 0x1_0000_0000_0000_0000u128) as u64
}

fn feed(h: &mut u64, bytes: &Vec<u8>, Ghost(prefix): Ghost<Seq<u8>>)
    requires
        *old(h) == fnv(prefix),
    ensures
        *final(h) == fnv(prefix + bytes@),
{
    let mut i: usize = 0;
    while i < bytes.len()
        invariant
            i <= bytes@.len(),
            *h == fnv(prefix + bytes@.subrange(0, i as int)),
        decreases bytes@.len() - i,
    {
        assert((prefix + bytes@.subrange(0, i + 1)).drop_last() =~= prefix + bytes@.subrange(0, i as int));
        *h = fnv_byte(*h, bytes[i]);
        i = i + 1;
    }
    assert(bytes@.subrange(0, bytes@.len() as int) =~= bytes@);
}

fn hash_records(recs: &Vec<DnsRecord>, Ghost(d): Ghost<Seq<u8>>, Ghost(starts): Ghost<Seq<int>>) -> (r: u64)
    requires
        records_match(recs@, d, starts),
    ensures
        r == fnv(rdata_stream(d, starts)),
{
    let mut h: u64 = FNV_OFFSET;
    let mut k: usize = 0;
    assert(rdata_stream(d, starts.take(0)) =~= Seq::<u8>::empty());
    while k < recs.len()
        invariant
            records_match(recs@, d, starts),
            k <= recs@.len(),
            h == fnv(rdata_stream(d, starts.take(k as int))),
        decreases recs@.len() - k,
    {
        let rec = &recs[k];
        assert(record_matches(recs@[k as int], d, starts[k as int]));
        assert(starts.take(k + 1).drop_last() =~= starts.take(k as int));
        let mut lenb: Vec<u8> = Vec::new();
        crate::wire::push_u16(&mut lenb, rec.rdlength);
        let ghost s0 = rdata_stream(d, starts.take(k as int));
        feed(&mut h, &lenb, Ghost(s0));
        feed(&mut h, &rec.rdata, Ghost(s0 + lenb@));
        assert(s0 + lenb@ + rec.rdata@ =~= rdata_stream(d, starts.take(k + 1)));
        k = k + 1;
    }
    assert(starts.take(k as int) =~= starts);
    h
}

fn min_ttl_records(
    recs: &Vec<DnsRecord>,
    acc: Option<u32>,
    Ghost(d): Ghost<Seq<u8>>,
    Ghost(prior): Ghost<Seq<int>>,
    Ghost(starts): Ghost<Seq<int>>,
) -> (r: Option<u32>)
    requires
        records_match(recs@, d, starts),
        acc matches Some(a) ==> min_ttl_over(d, prior) == Some(a as int),
        acc is None ==> min_ttl_over(d, prior) is None,
    ensures
        r matches Some(a) ==> min_ttl_over(d, prior + starts) == Some(a as int),
        r is None ==> min_ttl_over(d, prior + starts) is None,
{
    let mut m = acc;
    let mut k: usize = 0;
    assert(prior + starts.take(0) =~= prior);
    while k < recs.len()
        invariant
            records_match(recs@, d, starts),
            k <= recs@.len(),
            m matches Some(a) ==> min_ttl_over(d, prior + starts.take(k as int)) == Some(a as int),
            m is None ==> min_ttl_over(d, prior + starts.take(k as int)) is None,
        decreases recs@.len() - k,
    {
        let rec = &recs[k];
        assert(record_matches(recs@[k as int], d, starts[k as int]));
        assert((prior + starts.take(k + 1)).drop_last() =~= prior + starts.take(k as int));
        assert((prior + starts.take(k + 1)).last() == starts[k as int]);
        proof {
            crate::types::lemma_type_code_round_trip(
                be16(d, name_end(d, starts[k as int])) as u16,
            );
        }
        if rec.rtype.to_u16() != TYPE_OPT {
            m = match m {
                Some(a) => Some(if rec.ttl < a {
                    rec.ttl
                } else {
                    a
                }),
                None => Some(rec.ttl),
            };
        }
        k = k + 1;
    }
    assert(starts.take(k as int) =~= starts);
    m
}

/// The smallest TTL among answer and authority records, OPT aside.
pub fn extract_min_ttl(response: &[u8]) -> (r: Option<u32>)
    ensures
        r matches Some(a) ==> response_min_ttl(response@) == Some(a as int),
        r is None ==> response_min_ttl(response@) is None,
{
    match parse_packet(response) {
        Ok(p) => {
            let ghost l = layout(response@)->Some_0;
            let m = min_ttl_records(&p.answers, None, Ghost(response@), Ghost(Seq::empty()), Ghost(l.answers));
            assert(Seq::<int>::empty() + l.answers =~= l.answers);
            min_ttl_records(&p.authorities, m, Ghost(response@), Ghost(l.answers), Ghost(l.authorities))
        },
        Err(_) => None,
    }
}

/// The FNV-1a hash of the answer rdata of a response.
pub fn hash_rdata(response: &[u8]) -> (r: u64)
    ensures
        r == rdata_hash_of(response@),
{
    match parse_packet(response) {
        Ok(p) => {
            let ghost l = layout(response@)->Some_0;
            hash_records(&p.answers, Ghost(response@), Ghost(l.answers))
        },
        Err(_) => FNV_OFFSET,
    }
}

/// A cached response with its bookkeeping; times are in seconds.
#[derive(Debug)]
pub struct CacheEntry {
    pub raw_response: Vec<u8>,
    pub original_ttl: u32,
    pub alchemized_ttl: u32,
    pub inserted_at: u64,
    pub upstream_name: String,
    pub hit_count: u64,
    pub last_rdata_hash: u64,
    pub rdata_changes: u32,
}

/// What a cache hit hands back.
#[derive(Debug)]
pub struct CacheLookup {
    pub raw_response: Vec<u8>,
    pub remaining_ttl: u32,
    pub upstream_name: String,
}

/// Seconds from `then` to `now`, zero if the clock reads earlier.
pub open spec fn elapsed(now: u64, then: u64) -> int {
    if now >= then {
        now - then
    } else {
        0
    }
}

/// The hit count that a reinserted entry keeps.
pub open spec fn kept_hits(prev: Option<CacheEntry>) -> u64 {
    match prev {
        Some(e) => e.hit_count,
        None => 0,
    }
}

/// The rdata-change count after inserting rdata with hash `h`.
pub open spec fn next_changes(prev: Option<CacheEntry>, h: u64) -> u32 {
    match prev {
        Some(e) => if e.last_rdata_hash != h && e.rdata_changes < u32::MAX {
            (e.rdata_changes + 1) as u32
        } else {
            e.rdata_changes
        },
        None => 0,
    }
}

/// An entry's eviction score `hits / max(age, 1)`, as numerator and
/// denominator.
pub open spec fn score_parts(e: CacheEntry, now: u64) -> (int, int) {
    let age = elapsed(now, e.inserted_at);
    (e.hit_count as int, if age < 1 {
        1
    } else {
        age
    })
}

/// Entry `a` scores no higher than entry `b`.
pub open spec fn scores_no_higher(a: CacheEntry, b: CacheEntry, now: u64) -> bool {
    let (na, da) = score_parts(a, now);
    let (nb, db) = score_parts(b, now);
    na * db <= nb * da
}

/// The lower-cased name and numeric type of a query, as a key.
pub open spec fn cache_key(name: Seq<char>, t: RecordType) -> (Seq<char>, u16) {
    (name.map_values(|c: char| ascii_lower(c)), type_code(t))
}

/// An entry is fresh, or stale but servable, or neither.
pub open spec fn fresh(e: CacheEntry, now: u64) -> bool {
    elapsed(now, e.inserted_at) < e.alchemized_ttl
}

/// The answer cache.
pub struct CacheLayer {
    entries: KeyedStore<CacheEntry>,
    config: CacheConfig,
    alchemy: TtlAlchemy,
    hits: u64,
    misses: u64,
    evictions: u64,
}

fn make_key(name: &str, qtype: &RecordType) -> (r: CacheKey)
    ensures
        key_view(r) == cache_key(name@, *qtype),
{
    CacheKey { name: lower_ascii(name), qtype: qtype.to_u16() }
}

impl CacheLayer {
    /// The entry under each key.
    pub closed spec fn view(&self) -> Map<(Seq<char>, u16), CacheEntry> {
        self.entries@
    }

    pub closed spec fn wf(&self) -> bool {
        self.entries.wf() && self.alchemy.wf()
    }

    pub closed spec fn config_spec(&self) -> CacheConfig {
        self.config
    }

    pub closed spec fn alchemy_spec(&self) -> TtlAlchemy {
        self.alchemy
    }

    pub closed spec fn size(&self) -> nat {
        self.entries.len_spec()
    }

    /// Lookups answered so far.
    pub closed spec fn hits_spec(&self) -> u64 {
        self.hits
    }

    /// Lookups missed so far.
    pub closed spec fn misses_spec(&self) -> u64 {
        self.misses
    }

    /// Entries evicted so far.
    pub closed spec fn evictions_spec(&self) -> u64 {
        self.evictions
    }

    pub fn new(config: &CacheConfig, alchemy: TtlAlchemy) -> (r: CacheLayer)
        requires
            alchemy.wf(),
        ensures
            r.wf(),
            r@ == Map::<(Seq<char>, u16), CacheEntry>::empty(),
            r.config_spec() == *config,
            r.alchemy_spec() == alchemy,
    {
        CacheLayer {
            entries: KeyedStore::new(),
            config: *config,
            alchemy,
            hits: 0,
            misses: 0,
            evictions: 0,
        }
    }

    /// Looks up `(name, qtype)` at time `now`. A fresh entry answers with
    /// `alchemized_ttl - elapsed`; an expired one, when serve-stale is on and
    /// it expired less than the stale window ago, answers with TTL 1 and the
    /// source suffixed " (stale)"; anything else is a miss.
    pub fn get(&mut self, name: &str, qtype: &RecordType, now: u64) -> (r: Option<CacheLookup>)
        requires
            old(self).wf(),
        ensures
            final(self).wf(),
            final(self)@ == old(self)@,
            final(self).config_spec() == old(self).config_spec(),
            final(self).alchemy_spec() == old(self).alchemy_spec(),
            final(self).size() == old(self).size(),
            r is Some ==> final(self).hits_spec() == crate::metrics::bump(old(self).hits_spec())
                && final(self).misses_spec() == old(self).misses_spec(),
            r is None ==> final(self).misses_spec() == crate::metrics::bump(old(self).misses_spec())
                && final(self).hits_spec() == old(self).hits_spec(),
            final(self).evictions_spec() == old(self).evictions_spec(),
            match old(self)@.get(cache_key(name@, *qtype)) {
                Some(e) => {
                    let el = elapsed(now, e.inserted_at);
                    if el < e.alchemized_ttl {
                        r matches Some(l) && l.remaining_ttl == e.alchemized_ttl - el
                            && l.raw_response@ == e.raw_response@ && l.upstream_name@ == e.upstream_name@
                    } else if old(self).config_spec().serve_stale && el - e.alchemized_ttl
                        < old(self).config_spec().stale_ttl_secs {
                        r matches Some(l) && l.remaining_ttl == 1 && l.raw_response@ == e.raw_response@
                            && l.upstream_name@ == e.upstream_name@ + " (stale)"@
                    } else {
                        r is None
                    }
                },
                None => r is None,
            },
    {
        let key = make_key(name, qtype);
        match self.entries.find(&key.name, key.qtype) {
            Some(i) => {
                let e = self.entries.value_at(i);
                let el: u64 = if now >= e.inserted_at {
                    now - e.inserted_at
                } else {
                    0
                };
                let ttl = e.alchemized_ttl as u64;
                if el < ttl {
                    let l = CacheLookup {
                        raw_response: crate::wire::copy_bytes(e.raw_response.as_slice()),
                        remaining_ttl: (ttl - el) as u32,
                        upstream_name: e.upstream_name.clone(),
                    };
                    if self.hits < u64::MAX {
                        self.hits = self.hits + 1;
                    }
                    return Some(l);
                }
                if self.config.serve_stale && el - ttl < self.config.stale_ttl_secs {
                    let mut src = e.upstream_name.clone();
                    src.append(" (stale)");
                    let l = CacheLookup {
                        raw_response: crate::wire::copy_bytes(e.raw_response.as_slice()),
                        remaining_ttl: 1,
                        upstream_name: src,
                    };
                    if self.hits < u64::MAX {
                        self.hits = self.hits + 1;
                    }
                    return Some(l);
                }
            },
            None => {},
        }
        if self.misses < u64::MAX {
            self.misses = self.misses + 1;
        }
        None
    }

    /// Counts a hit on `(name, qtype)` for the next alchemy pass.
    pub fn record_hit(&mut self, name: &str, qtype: &RecordType)
        requires
            old(self).wf(),
        ensures
            final(self).wf(),
            final(self).config_spec() == old(self).config_spec(),
            final(self).alchemy_spec() == old(self).alchemy_spec(),
            final(self).size() == old(self).size(),
            ({
                let k = cache_key(name@, *qtype);
                match old(self)@.get(k) {
                    Some(e) => final(self)@ == old(self)@.insert(
                        k,
                        CacheEntry {
                            hit_count: if e.hit_count < u64::MAX {
                                (e.hit_count + 1) as u64
                            } else {
                                e.hit_count
                            },
                            ..e
                        },
                    ),
                    None => final(self)@ == old(self)@,
                }
            }),
    {
        let key = make_key(name, qtype);
        match self.entries.find(&key.name, key.qtype) {
            Some(i) => {
                let placeholder = CacheEntry {
                    raw_response: Vec::new(),
                    original_ttl: 0,
                    alchemized_ttl: 0,
                    inserted_at: 0,
                    upstream_name: String::new(),
                    hit_count: 0,
                    last_rdata_hash: 0,
                    rdata_changes: 0,
                };
                let mut e = self.entries.replace_value(i, placeholder);
                if e.hit_count < u64::MAX {
                    e.hit_count = e.hit_count + 1;
                }
                self.entries.set_value(i, e);
                proof {
                    assert(self@ =~= old(self)@.insert(cache_key(name@, *qtype), e));
                }
            },
            None => {},
        }
    }

    /// Inserts `response` for `(name, qtype)` at time `now`. The entry's TTL
    /// starts from the smallest record TTL (300 when there is none); a
    /// prior entry under the key hands on its hit count, and its rdata-change
    /// count goes up when the answer rdata hash differs. `raw_ttl` computes
    /// the adjusted TTL from (original TTL, hits, changes); the alchemist
    /// clamps it. A full cache evicts its lowest-scoring entry first.
    pub fn insert<F: Fn(u32, u64, u32) -> u64>(
        &mut self,
        name: &str,
        qtype: &RecordType,
        response: &[u8],
        upstream_name: &str,
        now: u64,
        raw_ttl: F,
    )
        requires
            old(self).wf(),
            forall|a: u32, b: u64, c: u32| raw_ttl.requires((a, b, c)),
        ensures
            final(self).wf(),
            final(self).config_spec() == old(self).config_spec(),
            final(self).alchemy_spec() == old(self).alchemy_spec(),
            ({
                let k = cache_key(name@, *qtype);
                let prev = old(self)@.get(k);
                let h = rdata_hash_of(response@);
                let o = original_ttl_of(response@);
                let e = final(self)@[k];
                &&& final(self)@.contains_key(k)
                &&& e.raw_response@ == response@
                &&& e.original_ttl == o
                &&& e.inserted_at == now
                &&& e.upstream_name@ == upstream_name@
                &&& e.hit_count == kept_hits(prev)
                &&& e.last_rdata_hash == h
                &&& e.rdata_changes == next_changes(prev, h)
                &&& exists|raw: u64|
                    #[trigger] raw_ttl.ensures((o as u32, kept_hits(prev), next_changes(prev, h)), raw)
                        && e.alchemized_ttl == old(self).alchemy_spec().ttl_for(o as u32, raw)
                &&& old(self).alchemy_spec().min_ttl <= e.alchemized_ttl <= old(self).alchemy_spec().max_ttl
                &&& forall|k2: (Seq<char>, u16)|
                    k2 != k && #[trigger] final(self)@.contains_key(k2) ==> old(self)@.contains_key(k2)
                        && final(self)@[k2] == old(self)@[k2]
                &&& old(self).size() < old(self).config_spec().max_entries ==> forall|k2: (Seq<char>, u16)|
                    #[trigger] old(self)@.contains_key(k2) ==> final(self)@.contains_key(k2)
                &&& (old(self).size() >= old(self).config_spec().max_entries && old(self).size() > 0) ==> exists|
                    ek: (Seq<char>, u16),
                |
                    #[trigger] old(self)@.contains_key(ek) && (forall|k2: (Seq<char>, u16)|
                        #[trigger] old(self)@.contains_key(k2) ==> scores_no_higher(old(self)@[ek], old(self)@[k2], now))
                        && (forall|k2: (Seq<char>, u16)|
                        k2 != k ==> (#[trigger] final(self)@.contains_key(k2) <==> (old(self)@.contains_key(k2)
                            && k2 != ek)))
                &&& final(self).evictions_spec() == if old(self).size() >= old(self).config_spec().max_entries
                    && old(self).size() > 0 {
                    crate::metrics::bump(old(self).evictions_spec())
                } else {
                    old(self).evictions_spec()
                }
                &&& (1 <= old(self).config_spec().max_entries && old(self).size() <= old(self).config_spec().max_entries)
                    ==> final(self).size() <= old(self).config_spec().max_entries
                &&& final(self).hits_spec() == old(self).hits_spec()
                &&& final(self).misses_spec() == old(self).misses_spec()
            }),
    {
        let original_ttl = match extract_min_ttl(response) {
            Some(t) => t,
            None => DEFAULT_TTL,
        };
        let key = make_key(name, qtype);
        let h = hash_rdata(response);
        let (rdata_changes, hit_count) = match self.entries.find(&key.name, key.qtype) {
            Some(i) => {
                let e = self.entries.value_at(i);
                let changes = if e.last_rdata_hash != h && e.rdata_changes < u32::MAX {
                    e.rdata_changes + 1
                } else {
                    e.rdata_changes
                };
                (changes, e.hit_count)
            },
            None => (0, 0),
        };
        let ghost prev = old(self)@.get(cache_key(name@, *qtype));
        assert(hit_count == kept_hits(prev) && rdata_changes == next_changes(prev, h));
        let raw = raw_ttl(original_ttl, hit_count, rdata_changes);
        let alchemized_ttl = self.alchemy.calculate_ttl(original_ttl, raw);
        let mut up = String::new();
        up.append(upstream_name);
        let entry = CacheEntry {
            raw_response: crate::wire::copy_bytes(response),
            original_ttl,
            alchemized_ttl,
            inserted_at: now,
            upstream_name: up,
            hit_count,
            last_rdata_hash: h,
            rdata_changes,
        };
        let ghost mid = self@;
        let full = self.entries.len() >= self.config.max_entries;
        if full {
            self.evict_one(now);
        }
        let ghost before = self@;
        let ghost before_size = self.size();
        let ghost ek: (Seq<char>, u16) = if full && old(self).size() > 0 {
            choose|ek: (Seq<char>, u16)| #[trigger] mid.contains_key(ek) && before == mid.remove(ek) && (
                forall|k2: (Seq<char>, u16)| #[trigger] mid.contains_key(k2) ==> scores_no_higher(mid[ek], mid[k2], now))
        } else {
            cache_key(name@, *qtype)
        };
        assert(forall|k2: (Seq<char>, u16)| #[trigger] before.contains_key(k2) ==> mid.contains_key(k2) && before[k2] == mid[k2]) by {
            if full && old(self).size() > 0 {
                let ek = choose|ek: (Seq<char>, u16)| #[trigger] mid.contains_key(ek) && before == mid.remove(ek) && (
                    forall|k2: (Seq<char>, u16)| #[trigger] mid.contains_key(k2) ==> scores_no_higher(mid[ek], mid[k2], now));
            }
        }
        match self.entries.find(&key.name, key.qtype) {
            Some(i) => {
                self.entries.set_value(i, entry);
            },
            None => {
                self.entries.push_new(key, entry);
            },
        }
        proof {
            let k = cache_key(name@, *qtype);
            assert(self@ == before.insert(k, entry));
            assert(up@ =~= upstream_name@);
            assert(original_ttl as int == original_ttl_of(response@));
            assert(raw_ttl.ensures((original_ttl, hit_count, rdata_changes), raw));
            assert(!full ==> before == mid);
        }
    }

    /// Removes the entry with the lowest `hits / max(age, 1)`.
    fn evict_one(&mut self, now: u64)
        requires
            old(self).wf(),
        ensures
            final(self).wf(),
            final(self).config_spec() == old(self).config_spec(),
            final(self).alchemy_spec() == old(self).alchemy_spec(),
            final(self).hits_spec() == old(self).hits_spec(),
            final(self).misses_spec() == old(self).misses_spec(),
            old(self).size() == 0 ==> final(self)@ == old(self)@ && final(self).size() == 0
                && final(self).evictions_spec() == old(self).evictions_spec(),
            old(self).size() > 0 ==> final(self).size() == old(self).size() - 1
                && final(self).evictions_spec() == crate::metrics::bump(old(self).evictions_spec()),
            old(self).size() > 0 ==> exists|ek: (Seq<char>, u16)|
                #[trigger] old(self)@.contains_key(ek) && final(self)@ == old(self)@.remove(ek) && (
                forall|k2: (Seq<char>, u16)|
                    #[trigger] old(self)@.contains_key(k2) ==> scores_no_higher(
                        old(self)@[ek],
                        old(self)@[k2],
                        now,
                    )),
    {
        let n = self.entries.len();
        if n == 0 {
            return;
        }
        let mut best: usize = 0;
        let mut i: usize = 1;
        proof {
            self.entries.lemma_slot_has_key(0);
        }
        while i < n
            invariant
                self.wf(),
                self == old(self),
                n == self.entries.len_spec(),
                best < i <= n,
                forall|j: int|
                    0 <= j < i ==> scores_no_higher(
                        self@[self.entries.key_at(best as int)],
                        #[trigger] self@[self.entries.key_at(j)],
                        now,
                    ),
            decreases n - i,
        {
            let b = self.entries.value_at(best);
            let c = self.entries.value_at(i);
            let bd: u64 = if now >= b.inserted_at && now - b.inserted_at >= 1 {
                now - b.inserted_at
            } else {
                1
            };
            let cd: u64 = if now >= c.inserted_at && now - c.inserted_at >= 1 {
                now - c.inserted_at
            } else {
                1
            };
            let lhs: u128 = mul_wide(c.hit_count, bd);
            let rhs: u128 = mul_wide(b.hit_count, cd);
            if lhs < rhs {
                proof {
                    let bv = self@[self.entries.key_at(best as int)];
                    let cv = self@[self.entries.key_at(i as int)];
                    assert forall|j: int| 0 <= j < i + 1 implies scores_no_higher(
                        cv,
                        #[trigger] self@[self.entries.key_at(j)],
                        now,
                    ) by {
                        if j < i {
                            let jv = self@[self.entries.key_at(j)];
                            let (bn, bdd) = score_parts(bv, now);
                            let (cn, cdd) = score_parts(cv, now);
                            let (jn, jd) = score_parts(jv, now);
                            assert(bn * jd <= jn * bdd);
                            assert(cn * bdd < bn * cdd);
                            assert(cn * jd <= jn * cdd) by (nonlinear_arith)
                                requires
                                    bn * jd <= jn * bdd,
                                    cn * bdd < bn * cdd,
                                    bdd >= 1,
                                    cdd >= 1,
                                    jd >= 1,
                                    cn >= 0,
                                    bn >= 0,
                                    jn >= 0,
                            ;
                        } else {
                            let (cn, cdd) = score_parts(cv, now);
                            assert(cn * cdd <= cn * cdd);
                        }
                    }
                }
                best = i;
            }
            i = i + 1;
        }
        let ghost ek = self.entries.key_at(best as int);
        proof {
            self.entries.lemma_slot_has_key(best as int);
            assert forall|k2: (Seq<char>, u16)| #[trigger] self@.contains_key(k2) implies scores_no_higher(
                self@[ek],
                self@[k2],
                now,
            ) by {
                self.entries.lemma_key_has_slot(k2);
                let j = choose|j: int| 0 <= j < self.entries.len_spec() && #[trigger] self.entries.key_at(j) == k2;
                assert(scores_no_higher(self@[ek], self@[self.entries.key_at(j)], now));
            }
        }
        self.entries.remove_at(best);
        if self.evictions < u64::MAX {
            self.evictions = self.evictions + 1;
        }
        assert(old(self)@.contains_key(ek));
    }

    /// The keys of entries still fresh but past `1 - num/den` of their TTL,
    /// to be resolved again before they expire.
    pub fn get_prefetch_candidates(&self, now: u64, ratio_num: u64, ratio_den: u64) -> (r: Vec<(String, RecordType)>)
        requires
            self.wf(),
            0 < ratio_den,
            ratio_num <= ratio_den,
        ensures
            forall|i: int|
                0 <= i < r@.len() ==> {
                    let k = (#[trigger] r@[i].0@, type_code(r@[i].1));
                    self@.contains_key(k) && near_expiry(self@[k], now, ratio_num, ratio_den)
                },
            forall|k: (Seq<char>, u16)|
                #[trigger] self@.contains_key(k) && near_expiry(self@[k], now, ratio_num, ratio_den)
                    ==> exists|i: int| 0 <= i < r@.len() && (r@[i].0@, type_code(r@[i].1)) == k,
    {
        let mut out: Vec<(String, RecordType)> = Vec::new();
        let n = self.entries.len();
        let mut i: usize = 0;
        while i < n
            invariant
                self.wf(),
                0 < ratio_den,
                ratio_num <= ratio_den,
                n == self.entries.len_spec(),
                i <= n,
                forall|j: int|
                    0 <= j < out@.len() ==> {
                        let k = (#[trigger] out@[j].0@, type_code(out@[j].1));
                        self@.contains_key(k) && near_expiry(self@[k], now, ratio_num, ratio_den)
                    },
                forall|j: int|
                    0 <= j < i && near_expiry(
                        #[trigger] self@[self.entries.key_at(j)],
                        now,
                        ratio_num,
                        ratio_den,
                    ) ==> exists|t: int| 0 <= t < out@.len() && (out@[t].0@, type_code(out@[t].1)) == self.entries.key_at(j),
            decreases n - i,
        {
            let e = self.entries.value_at(i);
            let key = self.entries.key_ref(i);
            let el: u64 = if now >= e.inserted_at {
                now - e.inserted_at
            } else {
                0
            };
            let ttl = e.alchemized_ttl as u64;
            let ghost old_out = out@;
            let near = ttl > 0 && el < ttl && mul_wide(el, ratio_den) > mul_wide(ratio_den - ratio_num, ttl);
            assert(near == near_expiry(self@[self.entries.key_at(i as int)], now, ratio_num, ratio_den));
            if near {
                let t = RecordType::from_u16(key.qtype);
                proof {
                    crate::types::lemma_type_code_round_trip(key.qtype);
                }
                out.push((key.name.clone(), t));
                proof {
                    let last = out@.len() - 1;
                    assert((out@[last].0@, type_code(out@[last].1)) == self.entries.key_at(i as int));
                }
            }
            proof {
                assert forall|j: int|
                    0 <= j < i + 1 && near_expiry(
                        #[trigger] self@[self.entries.key_at(j)],
                        now,
                        ratio_num,
                        ratio_den,
                    ) implies exists|t: int| 0 <= t < out@.len() && (out@[t].0@, type_code(out@[t].1)) == self.entries.key_at(j) by {
                    if j < i {
                        let t = choose|t: int| 0 <= t < old_out.len() && (old_out[t].0@, type_code(old_out[t].1)) == self.entries.key_at(j);
                        assert(out@[t] == old_out[t]);
                    } else {
                        let t = out@.len() - 1;
                        assert((out@[t].0@, type_code(out@[t].1)) == self.entries.key_at(j));
                    }
                }
            }
            i = i + 1;
        }
        proof {
            assert forall|k: (Seq<char>, u16)| #[trigger] self@.contains_key(k) && near_expiry(self@[k], now, ratio_num, ratio_den)
                implies exists|t: int| 0 <= t < out@.len() && (out@[t].0@, type_code(out@[t].1)) == k by {
                self.entries.lemma_key_has_slot(k);
                let j = choose|j: int| 0 <= j < self.entries.len_spec() && #[trigger] self.entries.key_at(j) == k;
                assert(near_expiry(self@[self.entries.key_at(j)], now, ratio_num, ratio_den));
            }
        }
        out
    }

    /// The number of entries.
    pub fn len(&self) -> (r: usize)
        requires
            self.wf(),
        ensures
            r == self.size(),
            r == self@.len(),
    {
        proof {
            self.entries.lemma_len_is_size();
        }
        self.entries.len()
    }

    /// The hit count, rdata-change count and alchemized TTL of the entry
    /// for `(name, qtype)`, if there is one.
    pub fn entry_stats(&self, name: &str, qtype: &RecordType) -> (r: Option<(u64, u32, u32)>)
        requires
            self.wf(),
        ensures
            match self@.get(cache_key(name@, *qtype)) {
                Some(e) => r == Some((e.hit_count, e.rdata_changes, e.alchemized_ttl)),
                None => r is None,
            },
    {
        let key = make_key(name, qtype);
        match self.entries.find(&key.name, key.qtype) {
            Some(i) => {
                let e = self.entries.value_at(i);
                Some((e.hit_count, e.rdata_changes, e.alchemized_ttl))
            },
            None => None,
        }
    }

    /// Counters of hits, misses and evictions so far.
    pub fn counters(&self) -> (r: (u64, u64, u64))
        ensures
            r == (self.hits_spec(), self.misses_spec(), self.evictions_spec()),
    {
        (self.hits, self.misses, self.evictions)
    }
}

/// Fresh, but past `1 - num/den` of its TTL.
pub open spec fn near_expiry(e: CacheEntry, now: u64, num: u64, den: u64) -> bool {
    let el = elapsed(now, e.inserted_at);
    &&& e.alchemized_ttl > 0
    &&& el < e.alchemized_ttl
    &&& el * den > (den - num) * e.alchemized_ttl
}

/// Inserting a response whose answer rdata is the same as that of the
/// response the entry was made from keeps the entry's hit count and leaves
/// its rdata-change count as it was.
pub proof fn lemma_same_rdata_keeps_counters(prev: CacheEntry, old_response: Seq<u8>, new_response: Seq<u8>)
    requires
        prev.last_rdata_hash == rdata_hash_of(old_response),
        answer_stream(new_response) == answer_stream(old_response),
    ensures
        kept_hits(Some(prev)) == prev.hit_count,
        next_changes(Some(prev), rdata_hash_of(new_response)) == prev.rdata_changes,
{
}

} // verus!
