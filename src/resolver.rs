//! The recursive resolver's decisions, round by round. The caller performs
//! each step (concurrent queries, sibling NS lookups) and hands the
//! outcomes back; the resolver keeps the infra, delegation and glue caches,
//! chooses servers by RTT band, classifies responses and decides the next
//! step.
use vstd::prelude::*;
use vstd::string::*;
use crate::cache::{elapsed, cache_key};
use crate::classify::{classify_response, classify_spec, DfsResult};
use crate::deleg::{DelegEntry, DelegationCache, DELEG_CACHE_TTL_SECS, DNS_PORT};
use crate::infra::{InfraCache, ServerAddr, MAX_SAMPLE_MS, FAST_SCORE_MS};
use crate::store::{key_view, CacheKey, KeyedStore};
use crate::text::lower_ascii;
use crate::types::RecordType;

verus! {

/// How many servers a round chooses among.
pub const ROUND_CANDIDATES: usize = 6;

/// How many NS names are resolved at once when a referral has no glue.
pub const MAX_NS_LOOKUPS: usize = 3;

/// The shortest per-server timeout that a known RTO allows, in ms.
pub const MIN_SERVER_TIMEOUT_MS: u64 = 500;

/// The record type of A.
pub const TYPE_A: u16 = 1;

/// Resolver settings.
#[derive(Debug, Clone, Copy)]
pub struct RecursiveConfig {
    pub parallel_branches: u32,
    pub max_depth: u32,
    pub query_timeout_ms: u64,
}

/// What came back from one server in a round.
#[derive(Debug)]
pub enum Outcome {
    Response { bytes: Vec<u8>, latency_ms: u64 },
    Timeout,
}

/// One server's outcome.
#[derive(Debug)]
pub struct RoundResult {
    pub server: ServerAddr,
    pub outcome: Outcome,
}

/// The state of one resolution.
#[derive(Debug)]
pub struct Resolution {
    pub qname: String,
    pub qtype: RecordType,
    pub zone: String,
    pub depth: u32,
    pub servers: Vec<ServerAddr>,
    /// Whether NS names without glue may be resolved (not in a sibling
    /// resolution, which may not recurse).
    pub may_resolve_ns: bool,
}

/// What the caller does next.
#[derive(Debug)]
pub enum Step {
    /// Query these servers concurrently for the question, each with its
    /// timeout; hand back the results in arrival order, up to the first
    /// answer, referral or NXDOMAIN.
    Query { servers: Vec<ServerAddr>, timeouts_ms: Vec<u64> },
    /// Resolve the A records of these NS names, then hand back the
    /// addresses.
    ResolveNs { names: Vec<String> },
    /// The authoritative answer or NXDOMAIN.
    Done(Vec<u8>),
    /// Give up: the caller answers SERVFAIL.
    Fail,
}

/// The nominal timeout at depth `d`: `query_timeout_ms × max(0.2, 1 − 0.1·d)`.
pub open spec fn nominal_timeout(q: u64, d: u32) -> int {
    let f = if d >= 8 {
        2int
    } else {
        10 - d
    };
    q * f / 10
}

/// The per-server timeout: the nominal one, no longer than
/// `max(500 ms, 2·rto)` where the server's RTO is known.
pub open spec fn server_timeout(q: u64, d: u32, rto: Option<i32>) -> int {
    let n = nominal_timeout(q, d);
    match rto {
        Some(r) => {
            let cap = if 2 * r > 500 {
                2 * r
            } else {
                500int
            };
            if n < cap {
                n
            } else {
                cap
            }
        },
        None => n,
    }
}

/// The per-server timeout at depth `depth` for a server with RTO `rto`.
pub fn per_server_timeout(query_timeout_ms: u64, depth: u32, rto: Option<i32>) -> (r: u64)
    ensures
        r == server_timeout(query_timeout_ms, depth, rto),
{
    let f: u64 = if depth >= 8 {
        2
    } else {
        10 - depth as u64
    };
    let prod = crate::cache::mul_wide(query_timeout_ms, f);
    assert((query_timeout_ms as int) * (f as int) / 10 <= query_timeout_ms) by (nonlinear_arith)
        requires
            f <= 10,
            query_timeout_ms >= 0,
    ;
    let nominal: u64 = (prod / 10) as u64;
    match rto {
        Some(r) => {
            let twice: i64 = 2 * (r as i64);
            let cap: u64 = if twice > 500 {
                twice as u64
            } else {
                MIN_SERVER_TIMEOUT_MS
            };
            if nominal < cap {
                nominal
            } else {
                cap
            }
        },
        None => nominal,
    }
}

/// How many servers a round queries: two when the best is known to be fast,
/// else the configured number of branches, never more than there are.
pub open spec fn branch_count(best: int, n: int, parallel: int) -> int {
    let want = if best < FAST_SCORE_MS {
        2
    } else {
        parallel
    };
    if n < want {
        n
    } else {
        want
    }
}

/// The first result that is an answer, referral or NXDOMAIN.
pub open spec fn useful(r: RoundResult) -> bool {
    r.outcome matches Outcome::Response { bytes, .. } && classify_spec(bytes@) != 0
}

/// The index of the first useful result, if any.
pub open spec fn first_useful(rs: Seq<RoundResult>) -> Option<int> {
    if exists|i: int| 0 <= i < rs.len() && useful(#[trigger] rs[i]) {
        Some(choose|i: int| 0 <= i < rs.len() && useful(#[trigger] rs[i]) && forall|j: int| 0 <= j < i ==> !useful(rs[j]))
    } else {
        None
    }
}

/// The response bytes of a result that has them.
pub open spec fn bytes_of(r: RoundResult) -> Seq<u8> {
    match r.outcome {
        Outcome::Response { bytes, .. } => bytes@,
        Outcome::Timeout => Seq::empty(),
    }
}

/// Names as their character sequences.
pub open spec fn names_view(v: Seq<String>) -> Seq<Seq<char>> {
    v.map_values(|s: String| s@)
}

/// `base` followed by the cached glue addresses of each of `names`, without
/// repeats.
pub open spec fn glue_frontier(
    g: Map<(Seq<char>, u16), Vec<u32>>,
    base: Seq<ServerAddr>,
    names: Seq<Seq<char>>,
) -> Seq<ServerAddr>
    decreases names.len(),
{
    if names.len() == 0 {
        base
    } else {
        let prev = glue_frontier(g, base, names.drop_last());
        let k = (names.last().map_values(|c: char| crate::text::ascii_lower(c)), TYPE_A);
        if g.contains_key(k) {
            crate::deleg::add_unique(prev, g[k]@)
        } else {
            prev
        }
    }
}

/// Glue pairs with their names as character sequences.
pub open spec fn glue_view_of(g: Seq<(String, u32)>) -> Seq<(Seq<char>, u32)> {
    g.map_values(|p: (String, u32)| (p.0@, p.1))
}

/// The NS names of a referral response.
pub open spec fn referral_names(d: Seq<u8>) -> Seq<Seq<char>> {
    crate::classify::ns_names_spec(d, crate::wire::layout(d)->Some_0.authorities)
}

/// The glue of a referral response.
pub open spec fn referral_glue(d: Seq<u8>) -> Seq<(Seq<char>, u32)> {
    crate::classify::glue_spec(d, crate::wire::layout(d)->Some_0.additionals)
}

/// The glue addresses of a referral's NS names.
pub open spec fn referral_addrs(d: Seq<u8>) -> Seq<ServerAddr> {
    crate::classify::glue_addrs(referral_glue(d), crate::classify::lower_all(referral_names(d)))
}

/// The delegation cache after a referral for `zone` was stored: that zone
/// holds the referral's NS names, addresses and glue, created `now` with
/// the default TTL; every other zone is as it was.
pub open spec fn stored_delegation(
    before: Map<(Seq<char>, u16), DelegEntry>,
    after: Map<(Seq<char>, u16), DelegEntry>,
    zone: Seq<char>,
    names: Seq<Seq<char>>,
    addrs: Seq<ServerAddr>,
    glue: Seq<(Seq<char>, u32)>,
    now: u64,
) -> bool {
    let k = (crate::deleg::zone_form(zone), crate::deleg::TYPE_NS);
    if crate::deleg::zone_form(zone).len() == 0 {
        after == before
    } else {
        &&& after == before.insert(k, after[k])
        &&& after[k].ns_addrs@ == addrs
        &&& names_view(after[k].ns_names@) == names
        &&& glue_view_of(after[k].glue@) == glue
        &&& after[k].created == now
        &&& after[k].ttl_secs == DELEG_CACHE_TTL_SECS
    }
}

/// The step after a referral whose reachable addresses are `next`: one
/// level down with an RTT-band choice among them; or, with none, a request
/// to resolve the first three NS names when allowed and the depth permits;
/// else failure.
pub open spec fn followed(
    infra: Map<u32, crate::infra::RttInfo>,
    next: Seq<ServerAddr>,
    names: Seq<Seq<char>>,
    cfg: RecursiveConfig,
    before: Resolution,
    after: Resolution,
    r: Step,
) -> bool {
    let room = before.depth as int + 1 < cfg.max_depth;
    if next.len() > 0 {
        if room {
            &&& r is Query
            &&& round_query(infra, cfg, after, r)
            &&& after.depth == before.depth + 1
            &&& after.servers@.len() > 0
            &&& crate::infra::band_selected(infra, next, ROUND_CANDIDATES, after.servers@)
        } else {
            r is Fail
        }
    } else if before.may_resolve_ns && room {
        r matches Step::ResolveNs { names: ns } && names_view(ns@) == names.take(
            if names.len() < MAX_NS_LOOKUPS {
                names.len() as int
            } else {
                MAX_NS_LOOKUPS as int
            },
        )
    } else {
        r is Fail
    }
}

/// A latency as the RTT sample it gives, capped at the largest sample.
pub open spec fn capped_sample(latency_ms: u64) -> i32 {
    if latency_ms > MAX_SAMPLE_MS {
        MAX_SAMPLE_MS
    } else {
        latency_ms as i32
    }
}

/// The infra states after a round's results are recorded in order: a
/// timeout, or a response that classifies as an error, counts as a timeout
/// of its server; any other response gives an RTT sample of its latency.
pub open spec fn recorded(infra: Map<u32, crate::infra::RttInfo>, rs: Seq<RoundResult>) -> Map<
    u32,
    crate::infra::RttInfo,
>
    decreases rs.len(),
{
    if rs.len() == 0 {
        infra
    } else {
        let prev = recorded(infra, rs.drop_last());
        let ip = rs.last().server.ip;
        let lost = prev.insert(ip, crate::infra::after_timeouts(crate::infra::state_in(prev, ip), 1));
        match rs.last().outcome {
            Outcome::Timeout => lost,
            Outcome::Response { bytes, latency_ms } => if classify_spec(bytes@) == 0 {
                lost
            } else {
                prev.insert(ip, crate::infra::sampled(crate::infra::state_in(prev, ip), capped_sample(latency_ms)))
            },
        }
    }
}

/// The step that a round takes for `res`: failure at the depth limit or
/// without servers; otherwise a query of the first `branch_count` servers
/// (by the best score of the frontier), each with its per-server timeout.
pub open spec fn round_query(
    infra: Map<u32, crate::infra::RttInfo>,
    cfg: RecursiveConfig,
    res: Resolution,
    r: Step,
) -> bool {
    if res.depth >= cfg.max_depth || res.servers@.len() == 0 {
        r is Fail
    } else {
        r matches Step::Query { servers, timeouts_ms } && servers@ == res.servers@.take(
            branch_count(
                crate::infra::min_score(infra, res.servers@),
                res.servers@.len() as int,
                cfg.parallel_branches as int,
            ),
        ) && timeouts_ms@.len() == servers@.len() && forall|i: int|
            0 <= i < timeouts_ms@.len() ==> #[trigger] timeouts_ms@[i] == server_timeout(
                cfg.query_timeout_ms,
                res.depth,
                match infra.get(servers@[i].ip) {
                    Some(info) => Some(info.rto),
                    None => None,
                },
            )
    }
}

/// The resolver's caches and settings.
pub struct RecursiveResolver {
    config: RecursiveConfig,
    infra: InfraCache,
    deleg: DelegationCache,
    glue_cache: KeyedStore<Vec<u32>>,
}

fn copy_ips(v: &Vec<u32>) -> (r: Vec<u32>)
    ensures
        r@ == v@,
{
    let mut out: Vec<u32> = Vec::new();
    let mut i: usize = 0;
    while i < v.len()
        invariant
            i <= v@.len(),
            out@ == v@.subrange(0, i as int),
        decreases v@.len() - i,
    {
        out.push(v[i]);
        assert(v@.subrange(0, i + 1) =~= v@.subrange(0, i as int).push(v@[i as int]));
        i = i + 1;
    }
    assert(v@.subrange(0, v@.len() as int) =~= v@);
    out
}

impl RecursiveResolver {
    pub closed spec fn wf(&self) -> bool {
        self.infra.wf() && self.deleg.wf() && self.glue_cache.wf()
    }

    pub closed spec fn config_spec(&self) -> RecursiveConfig {
        self.config
    }

    /// The infra cache's states.
    pub closed spec fn infra_view(&self) -> Map<u32, crate::infra::RttInfo> {
        self.infra@
    }

    /// The addresses cached for each NS name, keyed by (name, A).
    pub closed spec fn glue_view(&self) -> Map<(Seq<char>, u16), Vec<u32>> {
        self.glue_cache@
    }

    /// The root servers.
    pub closed spec fn roots_view(&self) -> Seq<ServerAddr> {
        self.deleg.roots_spec()
    }

    /// The delegation cache's entries.
    pub closed spec fn deleg_view(&self) -> Map<(Seq<char>, u16), DelegEntry> {
        self.deleg@
    }

    pub fn new(config: RecursiveConfig, roots: Vec<ServerAddr>) -> (r: RecursiveResolver)
        ensures
            r.wf(),
            r.config_spec() == config,
    {
        RecursiveResolver {
            config,
            infra: InfraCache::new(),
            deleg: DelegationCache::new(roots),
            glue_cache: KeyedStore::new(),
        }
    }

    /// The infra cache, for recording probe results.
    pub fn record_rtt(&mut self, ip: u32, latency_ms: u64)
        requires
            old(self).wf(),
        ensures
            final(self).wf(),
            final(self).config_spec() == old(self).config_spec(),
            final(self).glue_view() == old(self).glue_view(),
            final(self).deleg_view() == old(self).deleg_view(),
            final(self).roots_view() == old(self).roots_view(),
            final(self).infra_view() == old(self).infra_view().insert(
                ip,
                crate::infra::sampled(crate::infra::state_in(old(self).infra_view(), ip), capped_sample(latency_ms)),
            ),
            forall|k: u32| k != ip && old(self).infra_view().contains_key(k) ==> final(self).infra_view().contains_key(k)
                && final(self).infra_view()[k] == old(self).infra_view()[k],
    {
        let ms: i32 = if latency_ms > MAX_SAMPLE_MS as u64 {
            MAX_SAMPLE_MS
        } else {
            latency_ms as i32
        };
        self.infra.record_rtt(ip, ms);
        assert(self.infra_view() =~= old(self).infra_view().insert(
            ip,
            crate::infra::sampled(crate::infra::state_in(old(self).infra_view(), ip), capped_sample(latency_ms)),
        ));
    }


    /// Records a timeout of a query to `ip`.
    pub fn record_timeout(&mut self, ip: u32)
        requires
            old(self).wf(),
        ensures
            final(self).wf(),
            final(self).config_spec() == old(self).config_spec(),
            final(self).glue_view() == old(self).glue_view(),
            final(self).deleg_view() == old(self).deleg_view(),
            final(self).roots_view() == old(self).roots_view(),
            final(self).infra_view() == old(self).infra_view().insert(
                ip,
                crate::infra::after_timeouts(crate::infra::state_in(old(self).infra_view(), ip), 1),
            ),
            forall|k: u32| k != ip && old(self).infra_view().contains_key(k) ==> final(self).infra_view().contains_key(k)
                && final(self).infra_view()[k] == old(self).infra_view()[k],
    {
        self.infra.record_timeout(ip);
        assert(self.infra_view() =~= old(self).infra_view().insert(
            ip,
            crate::infra::after_timeouts(crate::infra::state_in(old(self).infra_view(), ip), 1),
        ));
    }

    /// RTT-band selection over the infra cache.
    pub fn select_servers_by_rtt(&self, servers: &[ServerAddr], max_count: usize) -> (r: Vec<ServerAddr>)
        requires
            self.wf(),
        ensures
            crate::infra::band_selected(self.infra_view(), servers@, max_count, r@),
            r@.len() <= max_count,
            servers@.len() > 0 && max_count > 0 ==> r@.len() > 0,
            forall|i: int| 0 <= i < r@.len() ==> servers@.contains(#[trigger] r@[i]),
    {
        let r = self.infra.select_servers_by_rtt(servers, max_count);
        proof {
            if servers@.len() > 0 {
                let best = crate::infra::min_score(self.infra@, servers@);
                let lim = best + crate::infra::band_for(best);
                lemma_min_is_eligible(self.infra@, servers@, lim);
                assert forall|i: int| 0 <= i < r@.len() implies servers@.contains(#[trigger] r@[i]) by {
                    lemma_eligible_in(self.infra@, servers@, lim, r@[i]);
                }
            }
        }
        r
    }

    /// Begins resolving `(qname, qtype)`: from the closest cached delegation
    /// (or the roots), with up to six servers chosen by RTT band, at the
    /// depth of the labels skipped.
    pub fn start(&mut self, qname: &str, qtype: RecordType, now: u64, may_resolve_ns: bool) -> (r: Resolution)
        requires
            old(self).wf(),
        ensures
            final(self).wf(),
            final(self).config_spec() == old(self).config_spec(),
            r.qname@ == qname@,
            r.qtype == qtype,
            r.may_resolve_ns == may_resolve_ns,
            final(self).infra_view() == old(self).infra_view(),
            final(self).glue_view() == old(self).glue_view(),
            final(self).roots_view() == old(self).roots_view(),
            r.servers@.len() <= ROUND_CANDIDATES,
            ({
                let n = crate::deleg::zone_form(qname@);
                let dv = old(self).deleg_view();
                if r.depth == 0 {
                    r.zone@ == seq!['.'] && crate::deleg::no_usable_before(dv, n, n.len() as int, now)
                        && crate::infra::band_selected(old(self).infra_view(), old(self).roots_view(), ROUND_CANDIDATES, r.servers@)
                } else {
                    exists|i: int|
                        0 <= i < n.len() && n[i] == '.' && r.zone@ == crate::deleg::zone_after(n, i)
                            && r.depth == (if crate::deleg::dots_before(n, i) + 1 > u32::MAX {
                            u32::MAX as int
                        } else {
                            crate::deleg::dots_before(n, i) + 1
                        }) && dv.contains_key((r.zone@, crate::deleg::TYPE_NS)) && crate::deleg::usable(
                            dv[(r.zone@, crate::deleg::TYPE_NS)],
                            now,
                        ) && #[trigger] crate::deleg::no_usable_before(dv, n, i, now) && crate::infra::band_selected(
                            old(self).infra_view(),
                            crate::deleg::all_addrs_spec(dv[(r.zone@, crate::deleg::TYPE_NS)]),
                            ROUND_CANDIDATES,
                            r.servers@,
                        ) && r.servers@.len() > 0
                }
            }),
    {
        let (addrs, zone, levels) = self.deleg.find_closest_delegation(qname, now);
        let ghost addrs0 = addrs@;
        let servers = self.select_servers_by_rtt(addrs.as_slice(), ROUND_CANDIDATES);
        let depth: u32 = if levels > u32::MAX as usize {
            u32::MAX
        } else {
            levels as u32
        };
        proof {
            if levels > 0 {
                let n = crate::deleg::zone_form(qname@);
                let i = choose|i: int|
                    0 <= i < n.len() && n[i] == '.' && zone@ == crate::deleg::zone_after(n, i) && levels
                        == crate::deleg::dots_before(n, i) + 1 && old(self).deleg_view().contains_key(
                        (crate::deleg::zone_after(n, i), crate::deleg::TYPE_NS),
                    ) && crate::deleg::usable(
                        old(self).deleg_view()[(crate::deleg::zone_after(n, i), crate::deleg::TYPE_NS)],
                        now,
                    ) && addrs0 == crate::deleg::all_addrs_spec(
                        old(self).deleg_view()[(crate::deleg::zone_after(n, i), crate::deleg::TYPE_NS)],
                    ) && #[trigger] crate::deleg::no_usable_before(old(self).deleg_view(), n, i, now);
            }
        }
        let mut name = String::new();
        name.append(qname);
        assert(name@ =~= qname@);
        Resolution { qname: name, qtype, zone, depth, servers, may_resolve_ns }
    }

    /// The smallest selection score among `servers` (which must not be
    /// empty).
    pub fn best_score(&self, servers: &Vec<ServerAddr>) -> (r: i32)
        requires
            self.wf(),
            servers@.len() > 0,
        ensures
            r == crate::infra::min_score(self.infra_view(), servers@),
    {
        let ghost m = self.infra@;
        let ghost sv = servers@;
        let mut best = self.infra.score_of(servers[0].ip);
        assert(sv.subrange(0, 1).len() == 1 && sv.subrange(0, 1)[0] == sv[0]);
        let mut i: usize = 1;
        while i < servers.len()
            invariant
                1 <= i <= sv.len(),
                sv == servers@,
                m == self.infra@,
                self.wf(),
                best == crate::infra::min_score(m, sv.subrange(0, i as int)),
            decreases sv.len() - i,
        {
            let s = self.infra.score_of(servers[i].ip);
            assert(sv.subrange(0, i + 1).drop_last() =~= sv.subrange(0, i as int));
            if s < best {
                best = s;
            }
            i = i + 1;
        }
        assert(sv.subrange(0, sv.len() as int) =~= sv);
        best
    }

    /// The next round: fail at the depth limit or without servers; else
    /// query the first `branch_count` servers (two when the best known score
    /// of the frontier is under 100 ms), each with its timeout.
    pub fn next_step(&self, res: &Resolution) -> (r: Step)
        requires
            self.wf(),
        ensures
            round_query(self.infra_view(), self.config_spec(), *res, r),
    {
        if res.depth >= self.config.max_depth || res.servers.len() == 0 {
            return Step::Fail;
        }
        let best = self.best_score(&res.servers);
        let want: usize = if best < FAST_SCORE_MS {
            2
        } else {
            self.config.parallel_branches as usize
        };
        let n = if res.servers.len() < want {
            res.servers.len()
        } else {
            want
        };
        let mut servers: Vec<ServerAddr> = Vec::new();
        let mut timeouts: Vec<u64> = Vec::new();
        let mut i: usize = 0;
        while i < n
            invariant
                self.wf(),
                n <= res.servers@.len(),
                i <= n,
                servers@ == res.servers@.take(i as int),
                timeouts@.len() == i,
                forall|j: int|
                    0 <= j < i ==> #[trigger] timeouts@[j] == server_timeout(
                        self.config.query_timeout_ms,
                        res.depth,
                        match self.infra@.get(servers@[j].ip) {
                            Some(info) => Some(info.rto),
                            None => None,
                        },
                    ),
            decreases n - i,
        {
            let s = res.servers[i];
            let rto = match self.infra.get(s.ip) {
                Some(info) => Some(info.rto),
                None => None,
            };
            timeouts.push(per_server_timeout(self.config.query_timeout_ms, res.depth, rto));
            servers.push(s);
            assert(res.servers@.take(i + 1) =~= res.servers@.take(i as int).push(s));
            i = i + 1;
        }
        Step::Query { servers, timeouts_ms: timeouts }
    }
}

/// The A-record addresses in the answer section of `d`.
pub open spec fn a_answers(d: Seq<u8>) -> Seq<u32> {
    match crate::wire::layout(d) {
        Some(l) => crate::classify::glue_spec(d, l.answers).map_values(|p: (Seq<char>, u32)| p.1),
        None => Seq::empty(),
    }
}

/// The addresses of the A records (four-byte rdata) in the answer section.
pub fn extract_a_records(response: &[u8]) -> (r: Vec<u32>)
    ensures
        r@ == a_answers(response@),
{
    match crate::wire::parse_packet(response) {
        Ok(p) => {
            let ghost d = response@;
            let ghost l = crate::wire::layout(d)->Some_0;
            proof {
                crate::wire::lemma_layout_items(d);
            }
            let g = crate::classify::glue_of(&p.answers, Ghost(d), Ghost(l.answers));
            let mut out: Vec<u32> = Vec::new();
            let mut i: usize = 0;
            while i < g.len()
                invariant
                    i <= g@.len(),
                    out@.len() == i,
                    forall|j: int| 0 <= j < i ==> #[trigger] out@[j] == g@[j].1,
                decreases g@.len() - i,
            {
                out.push(g[i].1);
                i = i + 1;
            }
            assert(out@ =~= a_answers(d));
            out
        },
        Err(_) => Vec::new(),
    }
}

/// `base` followed by port-53 addresses of `ips` not already present.
pub fn add_addrs(base: &mut Vec<ServerAddr>, ips: &Vec<u32>)
    ensures
        final(base)@ == crate::deleg::add_unique(old(base)@, ips@),
{
    let mut i: usize = 0;
    let ghost b0 = base@;
    assert(ips@.subrange(0, 0) =~= Seq::<u32>::empty());
    while i < ips.len()
        invariant
            i <= ips@.len(),
            base@ == crate::deleg::add_unique(b0, ips@.subrange(0, i as int)),
            b0 == old(base)@,
        decreases ips@.len() - i,
    {
        let a = ServerAddr { ip: ips[i], port: DNS_PORT };
        assert(ips@.subrange(0, i + 1).drop_last() =~= ips@.subrange(0, i as int));
        if !crate::deleg::contains_addr(base, a) {
            base.push(a);
        }
        i = i + 1;
    }
    assert(ips@.subrange(0, ips@.len() as int) =~= ips@);
}

fn clone_strings(v: &Vec<String>) -> (r: Vec<String>)
    ensures
        r@.len() == v@.len(),
        forall|i: int| 0 <= i < v@.len() ==> (#[trigger] r@[i])@ == v@[i]@,
{
    let mut out: Vec<String> = Vec::new();
    let mut i: usize = 0;
    while i < v.len()
        invariant
            i <= v@.len(),
            out@.len() == i,
            forall|j: int| 0 <= j < i ==> (#[trigger] out@[j])@ == v@[j]@,
        decreases v@.len() - i,
    {
        out.push(v[i].clone());
        i = i + 1;
    }
    out
}

impl RecursiveResolver {
    /// Caches the addresses that a sibling resolution found for `name`.
    pub fn record_glue(&mut self, name: &str, ips: &Vec<u32>)
        requires
            old(self).wf(),
        ensures
            final(self).wf(),
            final(self).config_spec() == old(self).config_spec(),
            final(self).infra_view() == old(self).infra_view(),
            final(self).deleg_view() == old(self).deleg_view(),
            final(self).roots_view() == old(self).roots_view(),
            ({
                let k = (name@.map_values(|c: char| crate::text::ascii_lower(c)), TYPE_A);
                &&& final(self).glue_view() == old(self).glue_view().insert(k, final(self).glue_view()[k])
                &&& final(self).glue_view()[k]@ == ips@
            }),
    {
        let key = CacheKey { name: lower_ascii(name), qtype: TYPE_A };
        let v = copy_ips(ips);
        match self.glue_cache.find(&key.name, key.qtype) {
            Some(i) => self.glue_cache.set_value(i, v),
            None => self.glue_cache.push_new(key, v),
        }
    }

    /// Adds the cached glue of each of `names` to `next`.
    fn add_cached_glue(&self, next: &mut Vec<ServerAddr>, names: &Vec<String>)
        requires
            self.wf(),
        ensures
            final(next)@ == glue_frontier(self.glue_view(), old(next)@, names_view(names@)),
    {
        let mut i: usize = 0;
        assert(names_view(names@).take(0) =~= Seq::<Seq<char>>::empty());
        while i < names.len()
            invariant
                self.wf(),
                i <= names@.len(),
                next@ == glue_frontier(self.glue_view(), old(next)@, names_view(names@).take(i as int)),
            decreases names@.len() - i,
        {
            assert(names_view(names@).take(i + 1).drop_last() =~= names_view(names@).take(i as int));
            assert(names_view(names@).take(i + 1).last() == names@[i as int]@);
            let lname = lower_ascii(names[i].as_str());
            match self.glue_cache.find(&lname, TYPE_A) {
                Some(k) => {
                    let ips = self.glue_cache.value_at(k);
                    add_addrs(next, ips);
                },
                None => {},
            }
            i = i + 1;
        }
        assert(names_view(names@).take(i as int) =~= names_view(names@));
    }

    /// Follows a referral: stores the delegation, forms the next frontier
    /// from the glue addresses and cached glue of the NS names, and either
    /// asks for NS names to be resolved (none reachable), fails, or moves one
    /// level down with servers chosen by RTT band.
    fn follow_referral(
        &mut self,
        res: &mut Resolution,
        ns_names: Vec<String>,
        ns_addrs: Vec<ServerAddr>,
        zone: String,
        glue: Vec<(String, u32)>,
        now: u64,
    ) -> (r: Step)
        requires
            old(self).wf(),
        ensures
            final(self).wf(),
            final(self).config_spec() == old(self).config_spec(),
            final(self).infra_view() == old(self).infra_view(),
            final(self).glue_view() == old(self).glue_view(),
            final(self).roots_view() == old(self).roots_view(),
            final(res).zone@ == zone@,
            final(res).qname == old(res).qname,
            final(res).qtype == old(res).qtype,
            final(res).may_resolve_ns == old(res).may_resolve_ns,
            stored_delegation(
                old(self).deleg_view(),
                final(self).deleg_view(),
                zone@,
                names_view(ns_names@),
                ns_addrs@,
                glue_view_of(glue@),
                now,
            ),
            followed(
                old(self).infra_view(),
                glue_frontier(old(self).glue_view(), ns_addrs@, names_view(ns_names@)),
                names_view(ns_names@),
                old(self).config_spec(),
                *old(res),
                *final(res),
                r,
            ),
    {
        let mut next = crate::deleg::copy_addrs(&ns_addrs);
        self.add_cached_glue(&mut next, &ns_names);
        let ghost names0 = ns_names@;
        let ghost addrs0 = ns_addrs@;
        let ghost glue0 = glue@;
        let entry = DelegEntry {
            ns_addrs,
            ns_names: clone_strings(&ns_names),
            glue,
            created: now,
            ttl_secs: DELEG_CACHE_TTL_SECS,
        };
        assert(names_view(entry.ns_names@) =~= names_view(names0));
        assert(entry.ns_addrs@ == addrs0 && entry.glue@ == glue0);
        self.deleg.store(zone.as_str(), entry);
        res.zone = zone;
        if next.len() == 0 {
            if res.may_resolve_ns && res.depth < u32::MAX && res.depth + 1 < self.config.max_depth {
                let mut names = clone_strings(&ns_names);
                if names.len() > MAX_NS_LOOKUPS {
                    names.truncate(MAX_NS_LOOKUPS);
                }
                assert(names_view(names@) =~= names_view(names0).take(names@.len() as int));
                return Step::ResolveNs { names };
            }
            return Step::Fail;
        }
        if res.depth == u32::MAX {
            return Step::Fail;
        }
        let servers = self.select_servers_by_rtt(next.as_slice(), ROUND_CANDIDATES);
        res.servers = servers;
        res.depth = res.depth + 1;
        self.next_step(res)
    }
}

impl RecursiveResolver {
    /// Takes a round's results in arrival order. Each timeout, and each
    /// response that classifies as an error, counts as a timeout of its
    /// server; any other response gives an RTT sample. The first answer or
    /// NXDOMAIN ends the resolution; the first referral is followed; with
    /// neither the resolution fails.
    pub fn on_results(&mut self, res: &mut Resolution, results: &Vec<RoundResult>, now: u64) -> (r: Step)
        requires
            old(self).wf(),
        ensures
            final(self).wf(),
            final(self).config_spec() == old(self).config_spec(),
            final(res).qname == old(res).qname,
            final(res).qtype == old(res).qtype,
            final(self).infra_view() == recorded(old(self).infra_view(), results@),
            match first_useful(results@) {
                None => r is Fail,
                Some(u) => {
                    let d = bytes_of(results@[u]);
                    &&& (classify_spec(d) == 1 || classify_spec(d) == 3) ==> (r matches Step::Done(b)
                        && b@ == d)
                    &&& classify_spec(d) == 2 ==> {
                        &&& final(res).zone@ == crate::classify::referral_zone(d)
                        &&& stored_delegation(
                            old(self).deleg_view(),
                            final(self).deleg_view(),
                            crate::classify::referral_zone(d),
                            referral_names(d),
                            referral_addrs(d),
                            referral_glue(d),
                            now,
                        )
                        &&& followed(
                            final(self).infra_view(),
                            glue_frontier(old(self).glue_view(), referral_addrs(d), referral_names(d)),
                            referral_names(d),
                            old(self).config_spec(),
                            *old(res),
                            *final(res),
                            r,
                        )
                    }
                },
            },
    {
        let mut chosen: Option<DfsResult> = None;
        let ghost mut cu: int = -1;
        let mut k: usize = 0;
        while k < results.len()
            invariant
                self.wf(),
                self.config == old(self).config,
                self.glue_view() == old(self).glue_view(),
                self.deleg_view() == old(self).deleg_view(),
                *res == *old(res),
                k <= results@.len(),
                self.infra_view() == recorded(old(self).infra_view(), results@.take(k as int)),
                chosen is None ==> forall|j: int| 0 <= j < k ==> !useful(#[trigger] results@[j]),
                chosen matches Some(c) ==> 0 <= cu < k && useful(results@[cu]) && (forall|j: int|
                    0 <= j < cu ==> !useful(#[trigger] results@[j])) && crate::classify::classified(
                    c,
                    bytes_of(results@[cu]),
                ) && !(c is Error),
            decreases results@.len() - k,
        {
            let r = &results[k];
            assert(results@.take(k + 1).drop_last() =~= results@.take(k as int));
            assert(results@.take(k + 1).last() == results@[k as int]);
            match &r.outcome {
                Outcome::Timeout => {
                    self.record_timeout(r.server.ip);
                },
                Outcome::Response { bytes, latency_ms } => {
                    let c = classify_response(bytes.as_slice());
                    let is_error = match c {
                        DfsResult::Error => true,
                        _ => false,
                    };
                    if is_error {
                        self.record_timeout(r.server.ip);
                    } else {
                        self.record_rtt(r.server.ip, *latency_ms);
                    }
                    if chosen.is_none() && !is_error {
                        proof {
                            cu = k as int;
                        }
                        chosen = Some(c);
                    }
                },
            }
            k = k + 1;
        }
        assert(results@.take(k as int) =~= results@);
        proof {
            if chosen is Some {
                assert(first_useful(results@) == Some(cu));
            } else {
                assert(first_useful(results@) is None);
            }
        }
        match chosen {
            None => Step::Fail,
            Some(DfsResult::Answer(b)) => Step::Done(b),
            Some(DfsResult::NxDomain(b)) => Step::Done(b),
            Some(DfsResult::Referral { ns_names, ns_addrs, zone, glue_records }) => {
                proof {
                    let d = bytes_of(results@[cu]);
                    assert(classify_spec(d) == 2);
                    assert(names_view(ns_names@) =~= referral_names(d));
                    assert(glue_view_of(glue_records@) =~= referral_glue(d));
                }
                self.follow_referral(res, ns_names, ns_addrs, zone, glue_records, now)
            },
            Some(DfsResult::Error) => Step::Fail,
        }
    }

    /// Takes the addresses that sibling resolutions found for a referral's
    /// NS names: none fails; otherwise the resolution moves one level down
    /// with servers chosen among them by RTT band.
    pub fn on_ns_addresses(&mut self, res: &mut Resolution, ips: &Vec<u32>) -> (r: Step)
        requires
            old(self).wf(),
        ensures
            final(self).wf(),
            final(self).config_spec() == old(self).config_spec(),
            final(res).qname == old(res).qname,
            final(res).qtype == old(res).qtype,
            final(self).infra_view() == old(self).infra_view(),
            final(res).zone == old(res).zone,
            final(res).may_resolve_ns == old(res).may_resolve_ns,
            (ips@.len() == 0 || old(res).depth as int + 1 >= old(self).config_spec().max_depth) ==> r is Fail,
            (ips@.len() > 0 && old(res).depth as int + 1 < old(self).config_spec().max_depth) ==> {
                &&& r is Query
                &&& round_query(old(self).infra_view(), old(self).config_spec(), *final(res), r)
                &&& final(res).depth == old(res).depth + 1
                &&& final(res).servers@.len() > 0
                &&& crate::infra::band_selected(
                    old(self).infra_view(),
                    crate::deleg::add_unique(Seq::empty(), ips@),
                    ROUND_CANDIDATES,
                    final(res).servers@,
                )
            },
    {
        if ips.len() == 0 || res.depth == u32::MAX {
            return Step::Fail;
        }
        let mut next: Vec<ServerAddr> = Vec::new();
        add_addrs(&mut next, ips);
        proof {
            lemma_add_unique_nonempty(Seq::empty(), ips@);
        }
        let servers = self.select_servers_by_rtt(next.as_slice(), ROUND_CANDIDATES);
        res.servers = servers;
        res.depth = res.depth + 1;
        self.next_step(res)
    }
}

proof fn lemma_add_unique_nonempty(base: Seq<ServerAddr>, ips: Seq<u32>)
    ensures
        ips.len() > 0 ==> crate::deleg::add_unique(base, ips).len() > 0,
        base.len() <= crate::deleg::add_unique(base, ips).len(),
    decreases ips.len(),
{
    if ips.len() > 0 {
        lemma_add_unique_nonempty(base, ips.drop_last());
    }
}

proof fn lemma_add_unique_keeps(base: Seq<ServerAddr>, ips: Seq<u32>)
    ensures
        forall|i: int| 0 <= i < base.len() ==> crate::deleg::add_unique(base, ips).contains(#[trigger] base[i]),
        base.len() <= crate::deleg::add_unique(base, ips).len(),
    decreases ips.len(),
{
    if ips.len() > 0 {
        lemma_add_unique_keeps(base, ips.drop_last());
        let prev = crate::deleg::add_unique(base, ips.drop_last());
        assert forall|i: int| 0 <= i < base.len() implies crate::deleg::add_unique(base, ips).contains(#[trigger] base[i]) by {
            assert(prev.contains(base[i]));
            let j = choose|j: int| 0 <= j < prev.len() && prev[j] == base[i];
            let a = ServerAddr { ip: ips.last(), port: DNS_PORT };
            if !prev.contains(a) {
                assert(prev.push(a)[j] == base[i]);
            }
        }
    }
}

proof fn lemma_eligible_in(m: Map<u32, crate::infra::RttInfo>, servers: Seq<ServerAddr>, lim: int, s: ServerAddr)
    requires
        crate::infra::eligible(m, servers, lim).contains(s),
    ensures
        servers.contains(s),
    decreases servers.len(),
{
    if servers.len() > 0 {
        let rest = servers.drop_last();
        if s == servers.last() {
            assert(servers[servers.len() - 1] == s);
        } else {
            let e = crate::infra::eligible(m, servers, lim);
            let i = choose|i: int| 0 <= i < e.len() && e[i] == s;
            if crate::infra::score_in(m, servers.last().ip) <= lim {
                assert(crate::infra::eligible(m, rest, lim)[i] == s);
            }
            lemma_eligible_in(m, rest, lim, s);
            let j = choose|j: int| 0 <= j < rest.len() && rest[j] == s;
            assert(servers[j] == s);
        }
    }
}

proof fn lemma_min_is_eligible(m: Map<u32, crate::infra::RttInfo>, servers: Seq<ServerAddr>, lim: int)
    requires
        servers.len() > 0,
        lim >= crate::infra::min_score(m, servers),
    ensures
        crate::infra::eligible(m, servers, lim).len() > 0,
    decreases servers.len(),
{
    if servers.len() > 1 {
        let rest = servers.drop_last();
        if crate::infra::score_in(m, servers.last().ip) > lim {
            lemma_min_is_eligible(m, rest, lim);
        }
    }
}

} // verus!
