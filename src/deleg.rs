//! The delegation cache: zone → NS names, reachable NS addresses and glue,
//! with a TTL; lookups find the closest enclosing zone that has a usable
//! delegation and fall back to the root servers.
use vstd::prelude::*;
use vstd::string::*;
use crate::cache::elapsed;
use crate::infra::ServerAddr;
use crate::store::{key_view, CacheKey, KeyedStore};
use crate::text::{ascii_lower, lower_ascii};

verus! {

/// How long a delegation stays usable, in seconds.
pub const DELEG_CACHE_TTL_SECS: u64 = 1800;

/// The DNS port that glue addresses are reached on.
pub const DNS_PORT: u16 = 53;

/// The record type of NS, under which delegations are keyed.
pub const TYPE_NS: u16 = 2;

/// A cached delegation.
#[derive(Debug)]
pub struct DelegEntry {
    pub ns_addrs: Vec<ServerAddr>,
    pub ns_names: Vec<String>,
    pub glue: Vec<(String, u32)>,
    pub created: u64,
    pub ttl_secs: u64,
}

/// `base` followed by port-53 addresses for `ips`, each added only if not
/// already present.
pub open spec fn add_unique(base: Seq<ServerAddr>, ips: Seq<u32>) -> Seq<ServerAddr>
    decreases ips.len(),
{
    if ips.len() == 0 {
        base
    } else {
        let prev = add_unique(base, ips.drop_last());
        let a = ServerAddr { ip: ips.last(), port: DNS_PORT };
        if prev.contains(a) {
            prev
        } else {
            prev.push(a)
        }
    }
}

/// The glue addresses of an entry, in order.
pub open spec fn glue_ips(g: Seq<(String, u32)>) -> Seq<u32> {
    g.map_values(|p: (String, u32)| p.1)
}

/// Every address that a delegation offers: its NS addresses, then its glue.
pub open spec fn all_addrs_spec(e: DelegEntry) -> Seq<ServerAddr> {
    add_unique(e.ns_addrs@, glue_ips(e.glue@))
}

/// A delegation past its TTL.
pub open spec fn expired(e: DelegEntry, now: u64) -> bool {
    elapsed(now, e.created) > e.ttl_secs
}

/// A delegation that can still be used.
pub open spec fn usable(e: DelegEntry, now: u64) -> bool {
    !expired(e, now) && all_addrs_spec(e).len() > 0
}

pub fn copy_addrs(v: &Vec<ServerAddr>) -> (r: Vec<ServerAddr>)
    ensures
        r@ == v@,
{
    let mut out: Vec<ServerAddr> = Vec::new();
    let mut i: usize = 0;
    while i < v.len()
        invariant
            i <= v@.len(),
            out@ == v@.subrange(0, i as int),
        decreases v@.len() - i,
    {
        out.push(v[i]);
        assert(v@.subrange(0, i + 1) =~= v@.subrange(0, i as int).push(v@[i as int]));
        i = i + 1;
    }
    assert(v@.subrange(0, v@.len() as int) =~= v@);
    out
}

/// Whether `v` holds `a`.
pub fn contains_addr(v: &Vec<ServerAddr>, a: ServerAddr) -> (r: bool)
    ensures
        r == v@.contains(a),
{
    let mut i: usize = 0;
    while i < v.len()
        invariant
            i <= v@.len(),
            forall|j: int| 0 <= j < i ==> v@[j] != a,
        decreases v@.len() - i,
    {
        if v[i] == a {
            return true;
        }
        i = i + 1;
    }
    false
}

impl DelegEntry {
    /// The NS addresses followed by each glue address on port 53, without
    /// repeats of an address already listed.
    pub fn all_addrs(&self) -> (r: Vec<ServerAddr>)
        ensures
            r@ == all_addrs_spec(*self),
    {
        let mut addrs = copy_addrs(&self.ns_addrs);
        let mut i: usize = 0;
        let ghost ips = glue_ips(self.glue@);
        while i < self.glue.len()
            invariant
                i <= self.glue@.len(),
                ips == glue_ips(self.glue@),
                addrs@ == add_unique(self.ns_addrs@, ips.subrange(0, i as int)),
            decreases self.glue@.len() - i,
        {
            let a = ServerAddr { ip: self.glue[i].1, port: DNS_PORT };
            assert(ips.subrange(0, i + 1).drop_last() =~= ips.subrange(0, i as int));
            if !contains_addr(&addrs, a) {
                addrs.push(a);
            }
            i = i + 1;
        }
        assert(ips.subrange(0, ips.len() as int) =~= ips);
        addrs
    }
}

/// `s` without its trailing dots.
pub open spec fn trim_dots(s: Seq<char>) -> Seq<char>
    decreases s.len(),
{
    if s.len() > 0 && s.last() == '.' {
        trim_dots(s.drop_last())
    } else {
        s
    }
}

/// The form of a name that the delegation cache is keyed by: lower-cased,
/// without trailing dots.
pub open spec fn zone_form(s: Seq<char>) -> Seq<char> {
    trim_dots(s).map_values(|c: char| ascii_lower(c))
}

/// No zone after a dot before position `i` of `n` has a usable delegation.
pub open spec fn no_usable_before(m: Map<(Seq<char>, u16), DelegEntry>, n: Seq<char>, i: int, now: u64) -> bool {
    forall|j: int|
        0 <= j < i && n[j] == '.' ==> !(#[trigger] m.contains_key((zone_after(n, j), TYPE_NS)) && usable(
            m[(zone_after(n, j), TYPE_NS)],
            now,
        ))
}

/// Every expired delegation of a zone after a dot before position `i` of
/// `n` is gone from `after`.
pub open spec fn expired_removed_before(
    before: Map<(Seq<char>, u16), DelegEntry>,
    after: Map<(Seq<char>, u16), DelegEntry>,
    n: Seq<char>,
    i: int,
    now: u64,
) -> bool {
    forall|j: int|
        0 <= j < i && n[j] == '.' && #[trigger] before.contains_key((zone_after(n, j), TYPE_NS)) && expired(
            before[(zone_after(n, j), TYPE_NS)],
            now,
        ) ==> !after.contains_key((zone_after(n, j), TYPE_NS))
}

/// The number of dots in `n` before position `i`.
pub open spec fn dots_before(n: Seq<char>, i: int) -> int
    decreases i,
{
    if i <= 0 {
        0
    } else {
        dots_before(n, i - 1) + if n[i - 1] == '.' {
            1int
        } else {
            0int
        }
    }
}

/// The zone after the dot at `i`.
pub open spec fn zone_after(n: Seq<char>, i: int) -> Seq<char> {
    n.subrange(i + 1, n.len() as int)
}

fn trimmed(s: &str) -> (r: &str)
    ensures
        r@ == trim_dots(s@),
{
    let mut k = s.unicode_len();
    assert(s@.subrange(0, k as int) =~= s@);
    while k > 0 && s.get_char(k - 1) == '.'
        invariant
            k <= s@.len(),
            trim_dots(s@) == trim_dots(s@.subrange(0, k as int)),
        decreases k,
    {
        assert(s@.subrange(0, k as int).drop_last() =~= s@.subrange(0, k - 1));
        k = k - 1;
    }
    assert(s@.subrange(0, k as int).len() == 0 || s@.subrange(0, k as int).last() != '.');
    s.substring_char(0, k)
}

/// The delegation cache, with the root servers to fall back on.
pub struct DelegationCache {
    entries: KeyedStore<DelegEntry>,
    roots: Vec<ServerAddr>,
}

impl DelegationCache {
    /// The delegation of each zone, keyed by (zone, NS).
    pub closed spec fn view(&self) -> Map<(Seq<char>, u16), DelegEntry> {
        self.entries@
    }

    pub closed spec fn roots_spec(&self) -> Seq<ServerAddr> {
        self.roots@
    }

    pub closed spec fn wf(&self) -> bool {
        self.entries.wf()
    }

    pub fn new(roots: Vec<ServerAddr>) -> (r: DelegationCache)
        ensures
            r.wf(),
            r@ == Map::<(Seq<char>, u16), DelegEntry>::empty(),
            r.roots_spec() == roots@,
    {
        DelegationCache { entries: KeyedStore::new(), roots }
    }

    /// The root servers.
    pub fn roots(&self) -> (r: Vec<ServerAddr>)
        ensures
            r@ == self.roots_spec(),
    {
        copy_addrs(&self.roots)
    }

    /// Replaces the delegation of `zone` (lower-cased, trailing dots
    /// dropped; the root itself is not cached).
    pub fn store(&mut self, zone: &str, entry: DelegEntry)
        requires
            old(self).wf(),
        ensures
            final(self).wf(),
            final(self).roots_spec() == old(self).roots_spec(),
            zone_form(zone@).len() == 0 ==> final(self)@ == old(self)@,
            zone_form(zone@).len() > 0 ==> final(self)@ == old(self)@.insert(
                (zone_form(zone@), TYPE_NS),
                entry,
            ),
    {
        let key = CacheKey { name: lower_ascii(trimmed(zone)), qtype: TYPE_NS };
        if key.name.unicode_len() == 0 {
            return;
        }
        match self.entries.find(&key.name, key.qtype) {
            Some(i) => self.entries.set_value(i, entry),
            None => self.entries.push_new(key, entry),
        }
    }

    /// Finds the closest enclosing zone of `qname` with a usable delegation:
    /// the zones after each dot of the name, most specific first. Returns
    /// its addresses, the zone and how many labels were skipped to reach it;
    /// with none, the root servers, "." and 0. Expired delegations met on
    /// the way are removed.
    pub fn find_closest_delegation(&mut self, qname: &str, now: u64) -> (r: (Vec<ServerAddr>, String, usize))
        requires
            old(self).wf(),
        ensures
            final(self).wf(),
            final(self).roots_spec() == old(self).roots_spec(),
            forall|k: (Seq<char>, u16)|
                #[trigger] final(self)@.contains_key(k) ==> old(self)@.contains_key(k)
                    && final(self)@[k] == old(self)@[k],
            forall|k: (Seq<char>, u16)|
                #[trigger] old(self)@.contains_key(k) && !final(self)@.contains_key(k) ==> expired(
                    old(self)@[k],
                    now,
                ),
            ({
                let n = zone_form(qname@);
                if r.2 == 0 {
                    r.0@ == old(self).roots_spec() && r.1@ == seq!['.'] && no_usable_before(
                        old(self)@,
                        n,
                        n.len() as int,
                        now,
                    ) && expired_removed_before(old(self)@, final(self)@, n, n.len() as int, now)
                } else {
                    exists|i: int|
                        0 <= i < n.len() && n[i] == '.' && r.1@ == zone_after(n, i) && r.2 == dots_before(n, i)
                            + 1 && old(self)@.contains_key((zone_after(n, i), TYPE_NS)) && usable(
                            old(self)@[(zone_after(n, i), TYPE_NS)],
                            now,
                        ) && r.0@ == all_addrs_spec(old(self)@[(zone_after(n, i), TYPE_NS)])
                            && #[trigger] no_usable_before(old(self)@, n, i, now) && expired_removed_before(
                            old(self)@,
                            final(self)@,
                            n,
                            i,
                            now,
                        )
                }
            }),
    {
        let name = lower_ascii(trimmed(qname));
        let ghost n = name@;
        assert(n =~= zone_form(qname@));
        let len = name.unicode_len();
        let mut i: usize = 0;
        let mut level: usize = 0;
        while i < len
            invariant
                self.wf(),
                n == name@,
                n == zone_form(qname@),
                len == n.len(),
                i <= len,
                level == dots_before(n, i as int),
                level <= i,
                self.roots == old(self).roots,
                forall|k: (Seq<char>, u16)|
                    #[trigger] self@.contains_key(k) ==> old(self)@.contains_key(k) && self@[k] == old(self)@[k],
                forall|k: (Seq<char>, u16)|
                    #[trigger] old(self)@.contains_key(k) && !self@.contains_key(k) ==> expired(old(self)@[k], now),
                no_usable_before(old(self)@, n, i as int, now),
                expired_removed_before(old(self)@, self@, n, i as int, now),
            decreases len - i,
        {
            if name.get_char(i) == '.' {
                let zone_str = name.as_str().substring_char(i + 1, len);
                let zone = String::from_str(zone_str);
                let ghost zk = (zone@, TYPE_NS);
                assert(zone@ == zone_after(n, i as int));
                match self.entries.find(&zone, TYPE_NS) {
                    Some(idx) => {
                        let e = self.entries.value_at(idx);
                        let el: u64 = if now >= e.created {
                            now - e.created
                        } else {
                            0
                        };
                        if el > e.ttl_secs {
                            let ghost before = self@;
                            self.entries.remove_at(idx);
                            proof {
                                assert(old(self)@[zk] == *e);
                            }
                        } else {
                            let addrs = e.all_addrs();
                            if addrs.len() > 0 {
                                assert(dots_before(n, i + 1) == dots_before(n, i as int) + 1);
                                assert(no_usable_before(old(self)@, n, i as int, now));
                                assert(self@.contains_key(zk));
                                assert(old(self)@.contains_key(zk) && old(self)@[zk] == *e);
                                assert(usable(old(self)@[zk], now));
                                assert(n == zone_form(qname@));
                                let r = (addrs, zone, level + 1);
                                assert(0 <= i < n.len() && n[i as int] == '.' && r.1@ == zone_after(n, i as int) && r.2 == dots_before(n, i as int) + 1);
                                return r;
                            }
                        }
                    },
                    None => {},
                }
                level = level + 1;
            }
            assert(dots_before(n, i + 1) == dots_before(n, i as int) + if n[i as int] == '.' {
                1int
            } else {
                0int
            });
            i = i + 1;
        }
        proof {
            reveal_strlit(".");
        }
        (copy_addrs(&self.roots), String::from_str("."), 0)
    }
}

} // verus!
