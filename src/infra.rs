//! The infra cache: a Jacobson/Karels RTT estimator per authority address,
//! with timeout backoff, a selection score, and RTT-band server selection.
use vstd::prelude::*;
use dashmap::DashMap;
use rand::seq::SliceRandom;

verus! {

broadcast use vstd::seq_lib::group_to_multiset_ensures;

/// The smallest retransmission timeout, in milliseconds.
pub const RTT_MIN_TIMEOUT_MS: i32 = 50;

/// The largest retransmission timeout, in milliseconds.
pub const RTT_MAX_TIMEOUT_MS: i32 = 120_000;

/// The score of a server that has no samples yet: inside the band of fast
/// servers, so that unknown servers get probed.
pub const UNKNOWN_SERVER_NICENESS: i32 = 376;

/// The band above the best score within which servers are candidates.
pub const RTT_BAND_MS: i32 = 400;

/// The narrower band used when the best server is fast.
pub const FAST_RTT_BAND_MS: i32 = 200;

/// A best score below this counts as fast.
pub const FAST_SCORE_MS: i32 = 100;

/// Added to the score of a server that keeps timing out.
pub const TIMEOUT_PENALTY: i32 = 10_000;

/// Consecutive timeouts after which a server is penalised.
pub const MAX_TIMEOUT_COUNT: u32 = 3;

/// The largest RTT sample, in milliseconds, that the estimator takes.
pub const MAX_SAMPLE_MS: i32 = 400_000_000;

/// An IPv4 authority address and port.
#[derive(Debug, Clone, Copy, PartialEq, Eq, Hash, Structural)]
pub struct ServerAddr {
    pub ip: u32,
    pub port: u16,
}

/// The estimator state of one server, in milliseconds.
#[derive(Debug, Clone, Copy)]
pub struct RttInfo {
    pub srtt: i32,
    pub rttvar: i32,
    pub rto: i32,
    pub timeout_count: u32,
    /// Whether a successful sample has been taken.
    pub has_sample: bool,
}

/// `v` limited to `[lo, hi]`.
pub open spec fn clamp_int(v: int, lo: int, hi: int) -> int {
    if v < lo {
        lo
    } else if v > hi {
        hi
    } else {
        v
    }
}

/// The RTO for an estimate: `srtt + 4·rttvar` within the timeout limits.
pub open spec fn rto_for(srtt: int, rttvar: int) -> int {
    clamp_int(srtt + 4 * rttvar, RTT_MIN_TIMEOUT_MS as int, RTT_MAX_TIMEOUT_MS as int)
}

/// Integer division that rounds toward zero, as Rust's `/` does.
pub open spec fn div_trunc(a: int, b: int) -> int {
    if a >= 0 {
        a / b
    } else {
        -((-a) / b)
    }
}

fn div_toward_zero(a: i32, b: i32) -> (r: i32)
    requires
        b > 0,
        a > i32::MIN,
    ensures
        r == div_trunc(a as int, b as int),
{
    if a >= 0 {
        a / b
    } else {
        -((-a) / b)
    }
}

/// The state after a successful sample of `ms` milliseconds.
pub open spec fn sampled(s: RttInfo, ms: i32) -> RttInfo {
    let (srtt, rttvar) = if s.is_unknown() {
        (ms as int, ms / 2)
    } else {
        let delta = ms - s.srtt;
        let abs = if delta < 0 {
            -delta
        } else {
            delta
        };
        (s.srtt + div_trunc(delta, 8), s.rttvar + div_trunc(abs - s.rttvar, 4))
    };
    RttInfo {
        srtt: srtt as i32,
        rttvar: rttvar as i32,
        rto: rto_for(srtt, rttvar) as i32,
        timeout_count: 0,
        has_sample: true,
    }
}

/// The state of a server not yet measured: no sample, `rttvar = 376/4`.
pub open spec fn unknown_state() -> RttInfo {
    RttInfo {
        srtt: 0,
        rttvar: (UNKNOWN_SERVER_NICENESS / 4) as i32,
        rto: rto_for(0, UNKNOWN_SERVER_NICENESS / 4) as i32,
        timeout_count: 0,
        has_sample: false,
    }
}

/// The state after a timeout of a query that began with RTO `orig_rto`.
pub open spec fn timed_out(s: RttInfo, orig_rto: i32) -> RttInfo {
    let doubled = if 2 * orig_rto > RTT_MAX_TIMEOUT_MS {
        RTT_MAX_TIMEOUT_MS as int
    } else {
        2 * orig_rto
    };
    RttInfo {
        srtt: s.srtt,
        rttvar: s.rttvar,
        rto: if s.rto >= orig_rto && s.rto <= doubled {
            doubled as i32
        } else {
            s.rto
        },
        timeout_count: if s.timeout_count < u32::MAX {
            (s.timeout_count + 1) as u32
        } else {
            s.timeout_count
        },
        has_sample: s.has_sample,
    }
}

impl RttInfo {
    /// Holds of every state that the estimator reaches.
    pub open spec fn wf(&self) -> bool {
        &&& RTT_MIN_TIMEOUT_MS <= self.rto <= RTT_MAX_TIMEOUT_MS
        &&& 0 <= self.srtt <= MAX_SAMPLE_MS
        &&& 0 <= self.rttvar <= MAX_SAMPLE_MS
    }

    /// A server without a successful sample.
    pub open spec fn is_unknown(&self) -> bool {
        !self.has_sample
    }

    /// The selection score (lower is better).
    pub open spec fn score(&self) -> int {
        if self.timeout_count >= MAX_TIMEOUT_COUNT {
            TIMEOUT_PENALTY + self.rto
        } else if self.is_unknown() {
            UNKNOWN_SERVER_NICENESS as int
        } else {
            self.srtt + 4 * self.rttvar
        }
    }

    /// The state of a server not yet measured.
    pub fn new() -> (r: RttInfo)
        ensures
            r.wf(),
            r == unknown_state(),
    {
        let rttvar = UNKNOWN_SERVER_NICENESS / 4;
        let rto = Self::calc_rto(0, rttvar);
        RttInfo { srtt: 0, rttvar, rto, timeout_count: 0, has_sample: false }
    }

    /// `srtt + 4·rttvar`, clamped to `[50 ms, 120 s]`.
    pub fn calc_rto(srtt: i32, rttvar: i32) -> (r: i32)
        requires
            0 <= srtt <= MAX_SAMPLE_MS,
            0 <= rttvar <= MAX_SAMPLE_MS,
        ensures
            r == rto_for(srtt as int, rttvar as int),
    {
        let v = srtt + 4 * rttvar;
        if v < RTT_MIN_TIMEOUT_MS {
            RTT_MIN_TIMEOUT_MS
        } else if v > RTT_MAX_TIMEOUT_MS {
            RTT_MAX_TIMEOUT_MS
        } else {
            v
        }
    }

    /// Takes a successful RTT sample of `ms` milliseconds (RFC 6298): the
    /// first sets `srtt = ms` and `rttvar = ms/2`; later ones move `srtt` by
    /// an eighth and `rttvar` by a quarter of the difference.
    pub fn update(&mut self, ms: i32)
        requires
            old(self).wf(),
            0 <= ms <= MAX_SAMPLE_MS,
        ensures
            final(self).wf(),
            old(self).is_unknown() ==> final(self).srtt == ms && final(self).rttvar == ms / 2,
            !old(self).is_unknown() ==> {
                let delta = ms - old(self).srtt;
                let abs = if delta < 0 {
                    -delta
                } else {
                    delta
                };
                &&& final(self).srtt == old(self).srtt + div_trunc(delta, 8)
                &&& final(self).rttvar == old(self).rttvar + div_trunc(abs - old(self).rttvar, 4)
            },
            final(self).rto == rto_for(final(self).srtt as int, final(self).rttvar as int),
            final(self).timeout_count == 0,
            *final(self) == sampled(*old(self), ms),
    {
        if !self.has_sample {
            self.srtt = ms;
            self.rttvar = ms / 2;
        } else {
            let delta = ms - self.srtt;
            let step = div_toward_zero(delta, 8);
            self.srtt = self.srtt + step;
            let abs = if delta < 0 {
                -delta
            } else {
                delta
            };
            let vstep = div_toward_zero(abs - self.rttvar, 4);
            self.rttvar = self.rttvar + vstep;
        }
        self.rto = Self::calc_rto(self.srtt, self.rttvar);
        self.timeout_count = 0;
        self.has_sample = true;
    }

    /// Records a timeout of a query that began with RTO `orig_rto`: an RTO
    /// not yet escalated past that doubles it (up to 120 s), and the timeout
    /// count goes up by one.
    pub fn lost(&mut self, orig_rto: i32)
        requires
            old(self).wf(),
        ensures
            final(self).wf(),
            final(self).srtt == old(self).srtt,
            final(self).rttvar == old(self).rttvar,
            final(self).rto == ({
                let doubled = if 2 * orig_rto > RTT_MAX_TIMEOUT_MS {
                    RTT_MAX_TIMEOUT_MS as int
                } else {
                    2 * orig_rto
                };
                if old(self).rto >= orig_rto && old(self).rto <= doubled {
                    doubled
                } else {
                    old(self).rto as int
                }
            }),
            final(self).timeout_count == if old(self).timeout_count < u32::MAX {
                old(self).timeout_count + 1
            } else {
                old(self).timeout_count as int
            },
            *final(self) == timed_out(*old(self), orig_rto),
    {
        let doubled: i64 = if 2 * (orig_rto as i64) > RTT_MAX_TIMEOUT_MS as i64 {
            RTT_MAX_TIMEOUT_MS as i64
        } else {
            2 * (orig_rto as i64)
        };
        if self.rto >= orig_rto && (self.rto as i64) <= doubled {
            self.rto = doubled as i32;
        }
        if self.timeout_count < u32::MAX {
            self.timeout_count = self.timeout_count + 1;
        }
    }

    /// The selection score: `10 000 + rto` after three timeouts in a row,
    /// 376 for a server without samples, `srtt + 4·rttvar` otherwise.
    pub fn selection_score(&self) -> (r: i32)
        requires
            self.wf(),
        ensures
            r == self.score(),
    {
        if self.timeout_count >= MAX_TIMEOUT_COUNT {
            return TIMEOUT_PENALTY + self.rto;
        }
        if !self.has_sample {
            return UNKNOWN_SERVER_NICENESS;
        }
        self.srtt + 4 * self.rttvar
    }
}

/// Jacobson/Karels: after one successful sample `r` of a server without
/// samples, `srtt = r` and `rttvar = r/2`.
pub proof fn lemma_first_sample(s: RttInfo, r: i32)
    requires
        s.wf(),
        s.is_unknown(),
        0 <= r <= MAX_SAMPLE_MS,
    ensures
        sampled(s, r).srtt == r,
        sampled(s, r).rttvar == r / 2,
        sampled(s, r).timeout_count == 0,
{
}

/// The RTO always lies in `[50, 120 000]`: samples and timeouts keep every
/// state of the estimator well formed.
pub proof fn lemma_rto_stays_in_range(s: RttInfo, ms: i32, orig_rto: i32)
    requires
        s.wf(),
        0 <= ms <= MAX_SAMPLE_MS,
    ensures
        sampled(s, ms).wf(),
        RTT_MIN_TIMEOUT_MS <= sampled(s, ms).rto <= RTT_MAX_TIMEOUT_MS,
        timed_out(s, orig_rto).wf(),
        RTT_MIN_TIMEOUT_MS <= timed_out(s, orig_rto).rto <= RTT_MAX_TIMEOUT_MS,
{
    let delta = ms - s.srtt;
    let abs: int = if delta < 0 {
        -delta
    } else {
        delta
    };
    assert(0 <= s.srtt + div_trunc(delta, 8) <= MAX_SAMPLE_MS);
    assert(0 <= s.rttvar + div_trunc(abs - s.rttvar, 4) <= MAX_SAMPLE_MS);
}

/// The state after `n` timeouts in a row, each with the RTO then in effect.
pub open spec fn after_timeouts(s: RttInfo, n: nat) -> RttInfo
    decreases n,
{
    if n == 0 {
        s
    } else {
        let p = after_timeouts(s, (n - 1) as nat);
        timed_out(p, p.rto)
    }
}

/// `n` timeouts in a row from a state with no timeouts leave
/// `timeout_count = n`; from three on, the selection score exceeds 10 000.
pub proof fn lemma_consecutive_timeouts(s: RttInfo, n: nat)
    requires
        s.wf(),
        s.timeout_count == 0,
        n < u32::MAX,
    ensures
        after_timeouts(s, n).wf(),
        after_timeouts(s, n).timeout_count == n,
        n >= 3 ==> after_timeouts(s, n).score() > 10_000,
    decreases n,
{
    if n > 0 {
        lemma_consecutive_timeouts(s, (n - 1) as nat);
    }
}

/// For an address without state, `n` consecutive timeouts recorded by
/// `record_timeout` give `timeout_count = n`; from three on, its selection
/// score exceeds 10 000.
pub proof fn lemma_fresh_address_timeouts(n: nat)
    requires
        n < u32::MAX,
    ensures
        after_timeouts(unknown_state(), n).timeout_count == n,
        n >= 3 ==> after_timeouts(unknown_state(), n).score() > 10_000,
{
    lemma_consecutive_timeouts(unknown_state(), n);
}

#[verifier::external_type_specification]
#[verifier::external_body]
#[verifier::reject_recursive_types(K)]
#[verifier::reject_recursive_types(V)]
#[verifier::reject_recursive_types(S)]
pub struct ExDashMap<K, V, S>(DashMap<K, V, S>);

/// A concurrent map from IPv4 address to estimator state.
pub type RttStates = DashMap<u32, RttInfo>;

/// The estimator state stored under each address of a map.
pub uninterp spec fn rtt_states(m: RttStates) -> Map<u32, RttInfo>;

/// Relies on `DashMap::new`: a map with no entries.
#[verifier::external_body]
fn states_new() -> (r: RttStates)
    ensures
        rtt_states(r).dom().len() == 0 && rtt_states(r).dom().finite(),
{
    DashMap::new()
}

/// Relies on `DashMap::get`: the value stored under the key, if any,
/// copied out of the read guard.
#[verifier::external_body]
fn states_get(m: &RttStates, ip: u32) -> (r: Option<RttInfo>)
    ensures
        r == rtt_states(*m).get(ip),
{
    m.get(&ip).map(|g| *g)
}

/// Relies on `DashMap::insert`: afterwards the key maps to the value and
/// every other key keeps its value.
#[verifier::external_body]
fn states_insert(m: &mut RttStates, ip: u32, info: RttInfo)
    ensures
        rtt_states(*final(m)) == rtt_states(*old(m)).insert(ip, info),
{
    m.insert(ip, info);
}

/// Per-address estimator states.
pub struct InfraCache {
    entries: RttStates,
}

/// The score of `ip` under `m`: its state's score, or the unknown-server
/// score where it has none.
pub open spec fn score_in(m: Map<u32, RttInfo>, ip: u32) -> int {
    if m.contains_key(ip) {
        m[ip].score()
    } else {
        UNKNOWN_SERVER_NICENESS as int
    }
}

/// The state of `ip` under `m`, or the unknown state where it has none.
pub open spec fn state_in(m: Map<u32, RttInfo>, ip: u32) -> RttInfo {
    if m.contains_key(ip) {
        m[ip]
    } else {
        unknown_state()
    }
}

/// The smallest score among `servers` (which must not be empty).
pub open spec fn min_score(m: Map<u32, RttInfo>, servers: Seq<ServerAddr>) -> int
    decreases servers.len(),
{
    if servers.len() <= 1 {
        score_in(m, servers[0].ip)
    } else {
        let rest = min_score(m, servers.drop_last());
        let last = score_in(m, servers.last().ip);
        if last < rest {
            last
        } else {
            rest
        }
    }
}

/// The band width for a best score: narrow when the best server is fast.
pub open spec fn band_for(best: int) -> int {
    if best < FAST_SCORE_MS {
        FAST_RTT_BAND_MS as int
    } else {
        RTT_BAND_MS as int
    }
}

/// The servers whose score is at most `limit`, in their order.
pub open spec fn eligible(m: Map<u32, RttInfo>, servers: Seq<ServerAddr>, limit: int) -> Seq<
    ServerAddr,
>
    decreases servers.len(),
{
    if servers.len() == 0 {
        Seq::empty()
    } else {
        let rest = eligible(m, servers.drop_last(), limit);
        if score_in(m, servers.last().ip) <= limit {
            rest.push(servers.last())
        } else {
            rest
        }
    }
}

/// `r` is an RTT-band selection from `servers` of at most `max_count`:
/// the servers within the band of the best score, shuffled, cut to the
/// count; nothing outside the band.
pub open spec fn band_selected(m: Map<u32, RttInfo>, servers: Seq<ServerAddr>, max_count: usize, r: Seq<ServerAddr>) -> bool {
    &&& servers.len() == 0 ==> r.len() == 0
    &&& servers.len() > 0 ==> {
        let best = min_score(m, servers);
        let cands = eligible(m, servers, best + band_for(best));
        &&& r.len() == if max_count < cands.len() {
            max_count as int
        } else {
            cands.len() as int
        }
        &&& forall|i: int| 0 <= i < r.len() ==> cands.contains(#[trigger] r[i])
        &&& r.to_multiset().subset_of(cands.to_multiset())
        &&& forall|i: int| 0 <= i < r.len() ==> score_in(m, #[trigger] r[i].ip) <= best + band_for(best)
        &&& max_count >= cands.len() ==> r.to_multiset() == cands.to_multiset()
    }
}

/// A server lies in the band exactly when its score is at most the limit.
pub proof fn lemma_eligible_iff(m: Map<u32, RttInfo>, servers: Seq<ServerAddr>, limit: int, s: ServerAddr)
    requires
        servers.contains(s),
    ensures
        eligible(m, servers, limit).contains(s) <==> score_in(m, s.ip) <= limit,
    decreases servers.len(),
{
    lemma_eligible_scores(m, servers, limit);
    let rest = servers.drop_last();
    if servers.last() == s {
        if score_in(m, s.ip) <= limit {
            assert(eligible(m, servers, limit).last() == s);
        }
    } else {
        let i = choose|i: int| 0 <= i < servers.len() && servers[i] == s;
        assert(rest[i] == s);
        lemma_eligible_iff(m, rest, limit, s);
        if eligible(m, rest, limit).contains(s) {
            let j = choose|j: int| 0 <= j < eligible(m, rest, limit).len() && eligible(m, rest, limit)[j] == s;
            if score_in(m, servers.last().ip) <= limit {
                assert(eligible(m, servers, limit)[j] == s);
            }
        }
    }
}

/// Every server in the band has a score at most the limit.
pub proof fn lemma_eligible_scores(m: Map<u32, RttInfo>, servers: Seq<ServerAddr>, limit: int)
    ensures
        forall|i: int|
            0 <= i < eligible(m, servers, limit).len() ==> score_in(
                m,
                #[trigger] eligible(m, servers, limit)[i].ip,
            ) <= limit,
        eligible(m, servers, limit).len() <= servers.len(),
    decreases servers.len(),
{
    if servers.len() > 0 {
        lemma_eligible_scores(m, servers.drop_last(), limit);
    }
}

/// Relies on rand's `SliceRandom::shuffle` with `OsRng`: a Fisher-Yates
/// shuffle that only swaps elements, so the result is a permutation.
#[verifier::external_body]
fn shuffle_servers(v: &mut Vec<ServerAddr>)
    ensures
        final(v)@.to_multiset() == old(v)@.to_multiset(),
        final(v)@.len() == old(v)@.len(),
{
    v.shuffle(&mut rand::rngs::OsRng);
}

impl InfraCache {
    /// The state of each address that has one.
    pub closed spec fn view(&self) -> Map<u32, RttInfo> {
        rtt_states(self.entries)
    }

    /// Every state is one that the estimator reaches.
    pub open spec fn wf(&self) -> bool {
        forall|ip: u32| self@.contains_key(ip) ==> (#[trigger] self@[ip]).wf()
    }

    pub fn new() -> (r: InfraCache)
        ensures
            r.wf(),
            r@ == Map::<u32, RttInfo>::empty(),
    {
        InfraCache { entries: states_new() }
    }

    /// The state of `ip`, where it has one.
    pub fn get(&self, ip: u32) -> (r: Option<RttInfo>)
        ensures
            r == (if self@.contains_key(ip) {
                Some(self@[ip])
            } else {
                None::<RttInfo>
            }),
    {
        states_get(&self.entries, ip)
    }

    /// The selection score of `ip`.
    pub fn score_of(&self, ip: u32) -> (r: i32)
        requires
            self.wf(),
        ensures
            r == score_in(self@, ip),
    {
        match states_get(&self.entries, ip) {
            Some(info) => {
                assert(self@[ip].wf());
                info.selection_score()
            },
            None => UNKNOWN_SERVER_NICENESS,
        }
    }

    /// Records a successful RTT sample for `ip`.
    pub fn record_rtt(&mut self, ip: u32, ms: i32)
        requires
            old(self).wf(),
            0 <= ms <= MAX_SAMPLE_MS,
        ensures
            final(self).wf(),
            final(self)@.dom() == old(self)@.dom().insert(ip),
            forall|k: u32| k != ip && old(self)@.contains_key(k) ==> final(self)@[k] == old(self)@[k],
            final(self)@[ip] == sampled(state_in(old(self)@, ip), ms),
    {
        let mut info = match states_get(&self.entries, ip) {
            Some(i) => {
                assert(old(self)@[ip].wf());
                i
            },
            None => RttInfo::new(),
        };
        info.update(ms);
        states_insert(&mut self.entries, ip, info);
        assert(self@.dom() =~= old(self)@.dom().insert(ip));
    }

    /// Records a timeout for `ip`, passing the RTO in effect (376 ms for an
    /// address without state).
    pub fn record_timeout(&mut self, ip: u32)
        requires
            old(self).wf(),
        ensures
            final(self).wf(),
            final(self)@.dom() == old(self)@.dom().insert(ip),
            forall|k: u32| k != ip && old(self)@.contains_key(k) ==> final(self)@[k] == old(self)@[k],
            final(self)@[ip] == after_timeouts(state_in(old(self)@, ip), 1),
    {
        let (mut info, orig) = match states_get(&self.entries, ip) {
            Some(i) => {
                assert(old(self)@[ip].wf());
                (i, i.rto)
            },
            None => (RttInfo::new(), UNKNOWN_SERVER_NICENESS),
        };
        info.lost(orig);
        proof {
            assert(after_timeouts(state_in(old(self)@, ip), 0) == state_in(old(self)@, ip));
        }
        states_insert(&mut self.entries, ip, info);
        assert(self@.dom() =~= old(self)@.dom().insert(ip));
    }

    /// RTT-band selection: scores every server, takes those within the band
    /// of the best (200 ms when the best is under 100 ms, else 400 ms),
    /// shuffles them and keeps at most `max_count`.
    pub fn select_servers_by_rtt(&self, servers: &[ServerAddr], max_count: usize) -> (r: Vec<ServerAddr>)
        requires
            self.wf(),
        ensures
            band_selected(self@, servers@, max_count, r@),
    {
        if servers.len() == 0 {
            return Vec::new();
        }
        let ghost m = self@;
        let ghost sv = servers@;
        let mut best = self.score_of(servers[0].ip);
        let mut i: usize = 1;
        while i < servers.len()
            invariant
                1 <= i <= sv.len(),
                sv == servers@,
                m == self@,
                self.wf(),
                best == min_score(m, sv.subrange(0, i as int)),
            decreases sv.len() - i,
        {
            let s = self.score_of(servers[i].ip);
            proof {
                assert(sv.subrange(0, i + 1).drop_last() =~= sv.subrange(0, i as int));
            }
            if s < best {
                best = s;
            }
            i = i + 1;
        }
        assert(sv.subrange(0, sv.len() as int) =~= sv);
        proof {
            lemma_min_score_bounds(m, sv);
        }
        let band: i32 = if best < FAST_SCORE_MS {
            FAST_RTT_BAND_MS
        } else {
            RTT_BAND_MS
        };
        let limit = best + band;
        let mut cands: Vec<ServerAddr> = Vec::new();
        let mut j: usize = 0;
        while j < servers.len()
            invariant
                j <= sv.len(),
                sv == servers@,
                m == self@,
                self.wf(),
                limit == best + band_for(best as int),
                cands@ == eligible(m, sv.subrange(0, j as int), limit as int),
            decreases sv.len() - j,
        {
            let s = self.score_of(servers[j].ip);
            proof {
                assert(sv.subrange(0, j + 1).drop_last() =~= sv.subrange(0, j as int));
            }
            if s <= limit {
                cands.push(servers[j]);
            }
            j = j + 1;
        }
        let ghost all = cands@;
        shuffle_servers(&mut cands);
        let ghost shuffled = cands@;
        if max_count < cands.len() {
            cands.truncate(max_count);
        }
        proof {
            lemma_eligible_scores(m, sv, limit as int);
            let kept = cands@.len() as int;
            assert(shuffled =~= shuffled.take(kept) + shuffled.skip(kept));
            assert(cands@ =~= shuffled.take(kept));
            vstd::seq_lib::lemma_multiset_commutative(shuffled.take(kept), shuffled.skip(kept));
            assert(cands@.to_multiset().subset_of(all.to_multiset()));
            assert forall|k: int| 0 <= k < cands@.len() implies all.contains(#[trigger] cands@[k]) by {
                assert(shuffled[k] == cands@[k]);
                assert(shuffled.contains(cands@[k]));
                assert(shuffled.to_multiset().count(cands@[k]) > 0);
                assert(all.to_multiset().count(cands@[k]) > 0);
            }
            assert forall|k: int| 0 <= k < cands@.len() implies score_in(m, #[trigger] cands@[k].ip)
                <= limit by {
                assert(all.contains(cands@[k]));
                let t = choose|t: int| 0 <= t < all.len() && all[t] == cands@[k];
                assert(score_in(m, all[t].ip) <= limit);
            }
        }
        cands
    }
}

/// Scores lie between the unknown-server extremes that the estimator allows.
proof fn lemma_min_score_bounds(m: Map<u32, RttInfo>, servers: Seq<ServerAddr>)
    requires
        servers.len() > 0,
        forall|ip: u32| m.contains_key(ip) ==> (#[trigger] m[ip]).wf(),
    ensures
        0 <= min_score(m, servers) <= 5 * MAX_SAMPLE_MS,
    decreases servers.len(),
{
    if servers.len() > 1 {
        lemma_min_score_bounds(m, servers.drop_last());
    }
}

} // verus!
