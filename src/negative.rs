//! The negative cache: NXDOMAIN responses keyed by (lower-cased name,
//! type), with a TTL from the authority SOA, lazy expiry, and optional
//! speculative entries for typo variants of the name.
use vstd::prelude::*;
use vstd::string::*;
use crate::cache::elapsed;
use crate::config::NegativeCacheConfig;
use crate::name::name_end;
use crate::store::{key_view, CacheKey, KeyedStore};
use crate::text::{ascii_lower, lower_ascii};
use crate::types::{type_code, RecordType};
use crate::wire::{be16, be32, layout, parse_packet, record_matches, records_match, DnsRecord};

verus! {

/// The record type of SOA.
pub const TYPE_SOA: u16 = 6;

/// The longest TTL that a speculative entry gets.
pub const SPECULATIVE_TTL_CAP: u32 = 60;

/// How many typo variants one NXDOMAIN yields at most.
pub const MAX_VARIANTS: usize = 10;

/// A cached NXDOMAIN response.
#[derive(Debug)]
pub struct NegEntry {
    pub raw_response: Vec<u8>,
    pub inserted_at: u64,
    pub ttl: u32,
    pub speculative: bool,
}

/// The negative TTL of the first SOA record at `starts` whose rdata holds
/// at least four bytes: the smaller of its MINIMUM field and its own TTL.
pub open spec fn first_soa_ttl(d: Seq<u8>, starts: Seq<int>) -> Option<int>
    decreases starts.len(),
{
    if starts.len() == 0 {
        None
    } else {
        let ne = name_end(d, starts[0]);
        let len = be16(d, ne + 8);
        if be16(d, ne) == TYPE_SOA && len >= 4 {
            let min = be32(d, ne + 10 + len - 4);
            let ttl = be32(d, ne + 4);
            Some(if min < ttl {
                min
            } else {
                ttl
            })
        } else {
            first_soa_ttl(d, starts.drop_first())
        }
    }
}

/// The negative TTL that a response's authority section gives.
pub open spec fn neg_ttl_of(d: Seq<u8>) -> Option<int> {
    match layout(d) {
        Some(l) => first_soa_ttl(d, l.authorities),
        None => None,
    }
}

/// The SOA-derived negative TTL of a response: the SOA MINIMUM, no larger
/// than the SOA record's TTL.
pub fn extract_neg_ttl(response: &[u8]) -> (r: Option<u32>)
    ensures
        r matches Some(t) ==> neg_ttl_of(response@) == Some(t as int),
        r is None ==> neg_ttl_of(response@) is None,
{
    let p = match parse_packet(response) {
        Ok(p) => p,
        Err(_) => return None,
    };
    let ghost d = response@;
    let ghost starts = layout(d)->Some_0.authorities;
    let recs = &p.authorities;
    proof {
        crate::wire::lemma_layout_items(d);
    }
    let mut k: usize = 0;
    assert(starts.subrange(0, starts.len() as int) =~= starts);
    while k < recs.len()
        invariant
            records_match(recs@, d, starts),
            d == response@,
            k <= recs@.len(),
            forall|i: int| 0 <= i < starts.len() ==> crate::wire::item_end(d, #[trigger] starts[i], true) is Some,
            neg_ttl_of(d) == first_soa_ttl(d, starts.subrange(k as int, starts.len() as int)),
        decreases recs@.len() - k,
    {
        let rec = &recs[k];
        assert(record_matches(recs@[k as int], d, starts[k as int]));
        let ghost sub = starts.subrange(k as int, starts.len() as int);
        assert(sub[0] == starts[k as int]);
        assert(sub.drop_first() =~= starts.subrange(k + 1, starts.len() as int));
        proof {
            crate::types::lemma_type_code_round_trip(be16(d, name_end(d, starts[k as int])) as u16);
        }
        let ghost ne = name_end(d, starts[k as int]);
        assert(crate::wire::item_end(d, starts[k as int], true) is Some);
        proof {
            crate::wire::lemma_name_end_after(d, starts[k as int], crate::wire::MAX_NAME_JUMPS as nat);
        }
        assert(rec.rdata@ == d.subrange(ne + 10, ne + 10 + be16(d, ne + 8)));
        assert(rec.rdata@.len() == be16(d, ne + 8));
        if rec.rtype.to_u16() == TYPE_SOA && rec.rdata.len() >= 4 {
            let n = rec.rdata.len();
            let min = crate::wire::read_u32(rec.rdata.as_slice(), n - 4);
            proof {
                let base = ne + 10 + n - 4;
                assert(rec.rdata@[n - 4] == d[base]);
                assert(rec.rdata@[n - 3] == d[base + 1]);
                assert(rec.rdata@[n - 2] == d[base + 2]);
                assert(rec.rdata@[n - 1] == d[base + 3]);
                assert(min == be32(d, base));
                let sub = starts.subrange(k as int, starts.len() as int);
                let v = if min < rec.ttl {
                    min as int
                } else {
                    rec.ttl as int
                };
                assert(be16(d, ne) == TYPE_SOA);
                assert(first_soa_ttl(d, sub) == Some(v));
                assert(neg_ttl_of(d) == first_soa_ttl(d, sub));
                assert(neg_ttl_of(d) == Some(v));
            }
            let r: u32 = if min < rec.ttl {
                min
            } else {
                rec.ttl
            };
            assert(d == response@);
            assert(neg_ttl_of(d) == Some(r as int));
            return Some(r);
        }
        k = k + 1;
    }
    None
}

/// The position of the first dot, if any.
pub open spec fn first_dot(n: Seq<char>) -> Option<int> {
    if exists|i: int| 0 <= i < n.len() && n[i] == '.' {
        Some(choose|i: int| 0 <= i < n.len() && n[i] == '.' && forall|j: int| 0 <= j < i ==> n[j] != '.')
    } else {
        None
    }
}

/// Variants of `label` with one character deleted at each position below
/// `k`, each followed by `.rest`; deletions that leave nothing are skipped.
pub open spec fn deletion_variants(label: Seq<char>, rest: Seq<char>, k: int) -> Seq<Seq<char>>
    decreases k,
{
    if k <= 0 {
        Seq::empty()
    } else {
        let prev = deletion_variants(label, rest, k - 1);
        let v = label.remove(k - 1);
        if v.len() > 0 {
            prev.push(v + seq!['.'] + rest)
        } else {
            prev
        }
    }
}

/// Variants of `label` with the characters at each position below `k` and
/// the next one swapped, each followed by `.rest`; swaps of equal
/// characters are skipped.
pub open spec fn swap_variants(label: Seq<char>, rest: Seq<char>, k: int) -> Seq<Seq<char>>
    decreases k,
{
    if k <= 0 {
        Seq::empty()
    } else {
        let prev = swap_variants(label, rest, k - 1);
        let i = k - 1;
        if label[i] != label[i + 1] {
            prev.push(label.update(i, label[i + 1]).update(i + 1, label[i]) + seq!['.'] + rest)
        } else {
            prev
        }
    }
}

/// The typo variants of a name with at least two labels: single-character
/// deletions from its first label, then adjacent-character swaps in it, at
/// most ten in all.
pub open spec fn typo_variants(n: Seq<char>) -> Seq<Seq<char>> {
    match first_dot(n) {
        Some(dot) => {
            let label = n.subrange(0, dot);
            let rest = n.subrange(dot + 1, n.len() as int);
            let all = deletion_variants(label, rest, label.len() as int) + swap_variants(
                label,
                rest,
                label.len() - 1,
            );
            if all.len() > MAX_VARIANTS {
                all.take(MAX_VARIANTS as int)
            } else {
                all
            }
        },
        None => Seq::empty(),
    }
}

fn find_dot(name: &str) -> (r: Option<usize>)
    ensures
        match first_dot(name@) {
            Some(d) => r == Some(d as usize),
            None => r is None,
        },
        r matches Some(d) ==> d < name@.len() && name@[d as int] == '.' && first_dot(name@) == Some(
            d as int,
        ),
{
    let n = name.unicode_len();
    let mut i: usize = 0;
    while i < n
        invariant
            n == name@.len(),
            i <= n,
            forall|j: int| 0 <= j < i ==> name@[j] != '.',
        decreases n - i,
    {
        if name.get_char(i) == '.' {
            proof {
                let c = choose|c: int| 0 <= c < name@.len() && name@[c] == '.' && forall|j: int| 0 <= j < c ==> name@[j] != '.';
                assert(c == i);
            }
            return Some(i);
        }
        i = i + 1;
    }
    None
}

/// Each string holds the corresponding character sequence.
pub open spec fn strings_match(v: Seq<String>, s: Seq<Seq<char>>) -> bool {
    v.len() == s.len() && forall|i: int| 0 <= i < v.len() ==> (#[trigger] v[i])@ == s[i]
}

fn deletions(label: &str, rest: &str) -> (r: Vec<String>)
    requires
        label@.len() < usize::MAX,
    ensures
        strings_match(r@, deletion_variants(label@, rest@, label@.len() as int)),
{
    let n = label.unicode_len();
    let mut out: Vec<String> = Vec::new();
    proof {
        reveal_strlit(".");
        assert("."@ =~= seq!['.']);
    }
    let mut i: usize = 0;
    while i < n
        invariant
                n == label@.len(),
            i <= n,
            "."@ =~= seq!['.'],
            strings_match(out@, deletion_variants(label@, rest@, i as int)),
        decreases n - i,
    {
        let ghost old_out = out@;
        proof {
            assert(label@.remove(i as int).len() == n - 1);
        }
        if n > 1 {
            let mut v = String::from_str(label.substring_char(0, i));
            v.append(label.substring_char(i + 1, n));
            v.append(".");
            v.append(rest);
            proof {
                assert(label@.subrange(0, i as int) + label@.subrange(i + 1, n as int) =~= label@.remove(i as int));
                assert(v@ =~= label@.remove(i as int) + seq!['.'] + rest@);
            }
            out.push(v);
        }
        proof {
            assert forall|j: int| 0 <= j < out@.len() implies (#[trigger] out@[j])@ == deletion_variants(label@, rest@, i + 1)[j] by {
                if j < old_out.len() {
                    assert(out@[j] == old_out[j]);
                }
            }
        }
        i = i + 1;
    }
    out
}

fn swaps(label: &str, rest: &str) -> (r: Vec<String>)
    requires
        label@.len() < usize::MAX,
    ensures
        strings_match(r@, swap_variants(label@, rest@, label@.len() - 1)),
{
    let n = label.unicode_len();
    let mut out: Vec<String> = Vec::new();
    proof {
        reveal_strlit(".");
        assert("."@ =~= seq!['.']);
    }
    let mut i: usize = 0;
    while i + 1 < n
        invariant
                n == label@.len(),
            n < usize::MAX,
            i == 0 || i < n,
            "."@ =~= seq!['.'],
            strings_match(out@, swap_variants(label@, rest@, i as int)),
        decreases n - i,
    {
        let a = label.get_char(i);
        let b = label.get_char(i + 1);
        let ghost old_out = out@;
        let ghost lv = label@;
        if a != b {
            let mut v = String::from_str(label.substring_char(0, i));
            v.append(label.substring_char(i + 1, i + 2));
            v.append(label.substring_char(i, i + 1));
            v.append(label.substring_char(i + 2, n));
            v.append(".");
            v.append(rest);
            proof {
                assert(lv.subrange(0, i as int) + lv.subrange(i + 1, i + 2) + lv.subrange(i as int, i + 1)
                    + lv.subrange(i + 2, n as int) =~= lv.update(i as int, lv[i + 1]).update(i + 1, lv[i as int]));
                assert(v@ =~= lv.update(i as int, lv[i + 1]).update(i + 1, lv[i as int]) + seq!['.'] + rest@);
            }
            out.push(v);
        }
        proof {
            assert forall|j: int| 0 <= j < out@.len() implies (#[trigger] out@[j])@ == swap_variants(lv, rest@, i + 1)[j] by {
                if j < old_out.len() {
                    assert(out@[j] == old_out[j]);
                }
            }
        }
        i = i + 1;
    }
    proof {
        if n == 0 {
            assert(swap_variants(label@, rest@, -1) =~= Seq::<Seq<char>>::empty());
        }
    }
    out
}

/// The typo variants of `name` (see `typo_variants`), character by
/// character.
pub fn generate_typo_variants(name: &str) -> (r: Vec<String>)
    ensures
        strings_match(r@, typo_variants(name@)),
{
    let dot = match find_dot(name) {
        Some(d) => d,
        None => {
            return Vec::new();
        },
    };
    let n = name.unicode_len();
    let label = name.substring_char(0, dot);
    let rest = name.substring_char(dot + 1, n);
    let mut out = deletions(label, rest);
    let ndel = out.len();
    let mut sw = swaps(label, rest);
    let ghost dv = out@;
    let ghost sv = sw@;
    out.append(&mut sw);
    let ghost all = deletion_variants(label@, rest@, dot as int) + swap_variants(label@, rest@, dot - 1);
    proof {
        assert(out@ == dv + sv);
        assert(strings_match(out@, all)) by {
            assert forall|j: int| 0 <= j < out@.len() implies (#[trigger] out@[j])@ == all[j] by {
                if j < ndel {
                    assert(out@[j] == dv[j]);
                } else {
                    assert(out@[j] == sv[j - ndel]);
                }
            }
        }
        assert(typo_variants(name@) == if all.len() > MAX_VARIANTS {
            all.take(MAX_VARIANTS as int)
        } else {
            all
        });
    }
    if out.len() > MAX_VARIANTS {
        out.truncate(MAX_VARIANTS);
    }
    out
}

/// The key that a variant name is cached under.
pub open spec fn variant_key(v: Seq<char>, t: RecordType) -> (Seq<char>, u16) {
    crate::cache::cache_key(v, t)
}

/// The negative cache.
pub struct NegativeCache {
    config: NegativeCacheConfig,
    entries: KeyedStore<NegEntry>,
}

fn neg_key(name: &str, qtype: &RecordType) -> (r: CacheKey)
    ensures
        key_view(r) == crate::cache::cache_key(name@, *qtype),
{
    CacheKey { name: lower_ascii(name), qtype: qtype.to_u16() }
}

/// The TTL that an NXDOMAIN response is cached with.
pub open spec fn neg_ttl_or(d: Seq<u8>, default_ttl: u32) -> int {
    match neg_ttl_of(d) {
        Some(t) => t,
        None => default_ttl as int,
    }
}

impl NegativeCache {
    /// The entry under each key.
    pub closed spec fn view(&self) -> Map<(Seq<char>, u16), NegEntry> {
        self.entries@
    }

    pub closed spec fn wf(&self) -> bool {
        self.entries.wf()
    }

    pub closed spec fn config_spec(&self) -> NegativeCacheConfig {
        self.config
    }

    pub fn new(config: &NegativeCacheConfig) -> (r: NegativeCache)
        ensures
            r.wf(),
            r@ == Map::<(Seq<char>, u16), NegEntry>::empty(),
            r.config_spec() == *config,
    {
        NegativeCache { config: *config, entries: KeyedStore::new() }
    }

    /// The cached NXDOMAIN response for `(name, qtype)` while it is fresh;
    /// an expired entry is removed.
    pub fn check(&mut self, name: &str, qtype: &RecordType, now: u64) -> (r: Option<Vec<u8>>)
        requires
            old(self).wf(),
        ensures
            final(self).wf(),
            final(self).config_spec() == old(self).config_spec(),
            ({
                let k = crate::cache::cache_key(name@, *qtype);
                if !old(self).config_spec().enabled {
                    r is None && final(self)@ == old(self)@
                } else {
                    match old(self)@.get(k) {
                        Some(e) => if elapsed(now, e.inserted_at) < e.ttl {
                            r matches Some(v) && v@ == e.raw_response@ && final(self)@ == old(self)@
                        } else {
                            r is None && final(self)@ == old(self)@.remove(k)
                        },
                        None => r is None && final(self)@ == old(self)@,
                    }
                }
            }),
    {
        if !self.config.enabled {
            return None;
        }
        let key = neg_key(name, qtype);
        match self.entries.find(&key.name, key.qtype) {
            Some(i) => {
                let e = self.entries.value_at(i);
                let el: u64 = if now >= e.inserted_at {
                    now - e.inserted_at
                } else {
                    0
                };
                if el < e.ttl as u64 {
                    return Some(crate::wire::copy_bytes(e.raw_response.as_slice()));
                }
                self.entries.remove_at(i);
                None
            },
            None => None,
        }
    }

    /// Caches an NXDOMAIN response for `(name, qtype)`, with the SOA-derived
    /// TTL or the configured default. With speculation on, each typo variant
    /// of the name that has no entry yet gets a speculative entry with the
    /// TTL capped at 60 s; an entry already present under any other key,
    /// speculative or not, is never overwritten.
    pub fn insert(&mut self, name: &str, qtype: &RecordType, response: &[u8], now: u64)
        requires
            old(self).wf(),
        ensures
            final(self).wf(),
            final(self).config_spec() == old(self).config_spec(),
            !old(self).config_spec().enabled ==> final(self)@ == old(self)@,
            old(self).config_spec().enabled ==> ({
                let k = crate::cache::cache_key(name@, *qtype);
                let t = neg_ttl_or(response@, old(self).config_spec().default_ttl);
                let e = final(self)@[k];
                &&& final(self)@.contains_key(k)
                &&& old(self).config_spec().speculative ==> forall|i: int|
                    0 <= i < typo_variants(name@).len() ==> final(self)@.contains_key(
                        variant_key(#[trigger] typo_variants(name@)[i], *qtype),
                    )
                &&& e.raw_response@ == response@
                &&& e.ttl == t
                &&& e.inserted_at == now
                &&& !e.speculative
                &&& forall|k2: (Seq<char>, u16)|
                    k2 != k && #[trigger] old(self)@.contains_key(k2) ==> final(self)@.contains_key(k2)
                        && final(self)@[k2] == old(self)@[k2]
                &&& forall|k2: (Seq<char>, u16)|
                    k2 != k && #[trigger] final(self)@.contains_key(k2) && !old(self)@.contains_key(k2)
                        ==> {
                        &&& old(self).config_spec().speculative
                        &&& final(self)@[k2].speculative
                        &&& final(self)@[k2].ttl == (if t < SPECULATIVE_TTL_CAP {
                            t
                        } else {
                            SPECULATIVE_TTL_CAP as int
                        })
                        &&& final(self)@[k2].raw_response@ == response@
                        &&& exists|i: int|
                            0 <= i < typo_variants(name@).len() && k2 == variant_key(
                                #[trigger] typo_variants(name@)[i],
                                *qtype,
                            )
                    }
            }),
    {
        if !self.config.enabled {
            return;
        }
        let key = neg_key(name, qtype);
        let ttl = match extract_neg_ttl(response) {
            Some(t) => t,
            None => self.config.default_ttl,
        };
        let entry = NegEntry {
            raw_response: crate::wire::copy_bytes(response),
            inserted_at: now,
            ttl,
            speculative: false,
        };
        let ghost k = key_view(key);
        match self.entries.find(&key.name, key.qtype) {
            Some(i) => {
                self.entries.set_value(i, entry);
            },
            None => {
                self.entries.push_new(key, entry);
            },
        }
        let ghost mid = self@;
        assert(mid == old(self)@.insert(k, entry));
        assert(ttl == neg_ttl_or(response@, self.config.default_ttl));
        if self.config.speculative {
            let variants = generate_typo_variants(name);
            let short_ttl = if ttl < SPECULATIVE_TTL_CAP {
                ttl
            } else {
                SPECULATIVE_TTL_CAP
            };
            let mut j: usize = 0;
            while j < variants.len()
                invariant
                    self.wf(),
                    self.config == old(self).config,
                    old(self).config.enabled,
                    old(self).config.speculative,
                    strings_match(variants@, typo_variants(name@)),
                    j <= variants@.len(),
                    self@.contains_key(k),
                    self@[k] == mid[k],
                    forall|i: int|
                        0 <= i < j ==> self@.contains_key(
                            variant_key(#[trigger] typo_variants(name@)[i], *qtype),
                        ),
                    forall|k2: (Seq<char>, u16)|
                        #[trigger] mid.contains_key(k2) ==> self@.contains_key(k2) && self@[k2] == mid[k2],
                    forall|k2: (Seq<char>, u16)|
                        #[trigger] self@.contains_key(k2) && !mid.contains_key(k2) ==> {
                            &&& self@[k2].speculative
                            &&& self@[k2].ttl == short_ttl
                            &&& self@[k2].raw_response@ == response@
                            &&& exists|i: int|
                                0 <= i < typo_variants(name@).len() && k2 == variant_key(
                                    #[trigger] typo_variants(name@)[i],
                                    *qtype,
                                )
                        },
                decreases variants@.len() - j,
            {
                let vkey = neg_key(variants[j].as_str(), qtype);
                assert(key_view(vkey) == variant_key(typo_variants(name@)[j as int], *qtype));
                match self.entries.find(&vkey.name, vkey.qtype) {
                    Some(_) => {},
                    None => {
                        let ghost before = self@;
                        let ghost vk = key_view(vkey);
                        let spec_entry = NegEntry {
                            raw_response: crate::wire::copy_bytes(response),
                            inserted_at: now,
                            ttl: short_ttl,
                            speculative: true,
                        };
                        self.entries.push_new(vkey, spec_entry);
                        proof {
                            assert(vk == variant_key(typo_variants(name@)[j as int], *qtype));
                            assert forall|k2: (Seq<char>, u16)|
                                #[trigger] self@.contains_key(k2) && !mid.contains_key(k2) implies {
                                    &&& self@[k2].speculative
                                    &&& self@[k2].ttl == short_ttl
                                    &&& self@[k2].raw_response@ == response@
                                    &&& exists|i: int|
                                        0 <= i < typo_variants(name@).len() && k2 == variant_key(
                                            #[trigger] typo_variants(name@)[i],
                                            *qtype,
                                        )
                                } by {
                                if k2 == vk {
                                    assert(k2 == variant_key(typo_variants(name@)[j as int], *qtype));
                                } else {
                                    assert(before.contains_key(k2));
                                }
                            }
                        }
                    },
                }
                j = j + 1;
            }
        }
        proof {
            assert(entry.raw_response@ == response@);
            assert(self@[k] == entry);
            assert forall|k2: (Seq<char>, u16)|
                k2 != k && #[trigger] old(self)@.contains_key(k2) implies self@.contains_key(k2)
                    && self@[k2] == old(self)@[k2] by {
                assert(mid.contains_key(k2));
            }
        }
    }

    /// The number of entries.
    pub fn len(&self) -> (r: usize)
        requires
            self.wf(),
        ensures
            r == self@.len(),
    {
        proof {
            self.entries.lemma_len_is_size();
        }
        self.entries.len()
    }
}

} // verus!
