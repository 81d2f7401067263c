//! Classification of an authority's response during recursion: answer,
//! referral (with NS names, glue addresses and zone), NXDOMAIN, NODATA
//! (returned as an answer), or an error.
use vstd::prelude::*;
use crate::deleg::DNS_PORT;
use crate::infra::ServerAddr;
use crate::name::{join_labels, name_end, name_labels, parse_name_at_offset};
use crate::text::{ascii_lower, lossy_text, lower_ascii};
use crate::types::{rcode_of, RecordType, ResponseCode};
use crate::wire::{be16, be32, layout, parse_packet, record_matches, records_match, DnsRecord};

verus! {

/// What one authority's response means for the resolution.
#[derive(Debug)]
pub enum DfsResult {
    Answer(Vec<u8>),
    Referral {
        ns_names: Vec<String>,
        ns_addrs: Vec<ServerAddr>,
        zone: String,
        glue_records: Vec<(String, u32)>,
    },
    NxDomain(Vec<u8>),
    Error,
}

/// The type of the record at `s`.
pub open spec fn rtype_at(d: Seq<u8>, s: int) -> int {
    be16(d, name_end(d, s))
}

/// The owner name of the record at `s`, as text.
pub open spec fn owner_at(d: Seq<u8>, s: int) -> Seq<char> {
    lossy_text(join_labels(name_labels(d, s)->Some_0))
}

/// The NS target names of the NS records at `starts`, read at each rdata
/// offset with compression; targets that do not parse are left out.
pub open spec fn ns_names_spec(d: Seq<u8>, starts: Seq<int>) -> Seq<Seq<char>>
    decreases starts.len(),
{
    if starts.len() == 0 {
        Seq::empty()
    } else {
        let prev = ns_names_spec(d, starts.drop_last());
        let s = starts.last();
        let off = name_end(d, s) + 10;
        if rtype_at(d, s) == 2 && name_labels(d, off) is Some {
            prev.push(lossy_text(join_labels(name_labels(d, off)->Some_0)))
        } else {
            prev
        }
    }
}

/// Whether some record at `starts` has type `t`.
pub open spec fn has_type(d: Seq<u8>, starts: Seq<int>, t: int) -> bool {
    exists|i: int| 0 <= i < starts.len() && rtype_at(d, #[trigger] starts[i]) == t
}

/// The index of the first record at `starts` with type `t`.
pub open spec fn first_of_type(d: Seq<u8>, starts: Seq<int>, t: int) -> int {
    choose|i: int|
        0 <= i < starts.len() && rtype_at(d, #[trigger] starts[i]) == t && forall|j: int|
            0 <= j < i ==> rtype_at(d, starts[j]) != t
}

/// The (lower-cased owner, address) of each A record at `starts` whose
/// rdata is four bytes.
pub open spec fn glue_spec(d: Seq<u8>, starts: Seq<int>) -> Seq<(Seq<char>, u32)>
    decreases starts.len(),
{
    if starts.len() == 0 {
        Seq::empty()
    } else {
        let prev = glue_spec(d, starts.drop_last());
        let s = starts.last();
        let ne = name_end(d, s);
        if rtype_at(d, s) == 1 && be16(d, ne + 8) == 4 {
            prev.push((owner_at(d, s).map_values(|c: char| ascii_lower(c)), be32(d, ne + 10) as u32))
        } else {
            prev
        }
    }
}

/// Port-53 addresses of the glue whose owner is one of `names`.
pub open spec fn glue_addrs(glue: Seq<(Seq<char>, u32)>, names: Seq<Seq<char>>) -> Seq<ServerAddr>
    decreases glue.len(),
{
    if glue.len() == 0 {
        Seq::empty()
    } else {
        let prev = glue_addrs(glue.drop_last(), names);
        if names.contains(glue.last().0) {
            prev.push(ServerAddr { ip: glue.last().1, port: DNS_PORT })
        } else {
            prev
        }
    }
}

/// Names lower-cased.
pub open spec fn lower_all(names: Seq<Seq<char>>) -> Seq<Seq<char>> {
    names.map_values(|n: Seq<char>| n.map_values(|c: char| ascii_lower(c)))
}

fn ns_names_of(recs: &Vec<DnsRecord>, response: &[u8], Ghost(starts): Ghost<Seq<int>>) -> (r: Vec<String>)
    requires
        records_match(recs@, response@, starts),
    ensures
        r@.len() == ns_names_spec(response@, starts).len(),
        forall|i: int| 0 <= i < r@.len() ==> (#[trigger] r@[i])@ == ns_names_spec(response@, starts)[i],
{
    let ghost d = response@;
    let mut out: Vec<String> = Vec::new();
    let mut k: usize = 0;
    while k < recs.len()
        invariant
            records_match(recs@, d, starts),
            d == response@,
            k <= recs@.len(),
            out@.len() == ns_names_spec(d, starts.take(k as int)).len(),
            forall|i: int| 0 <= i < out@.len() ==> (#[trigger] out@[i])@ == ns_names_spec(d, starts.take(k as int))[i],
        decreases recs@.len() - k,
    {
        let rec = &recs[k];
        assert(record_matches(recs@[k as int], d, starts[k as int]));
        assert(starts.take(k + 1).drop_last() =~= starts.take(k as int));
        proof {
            crate::types::lemma_type_code_round_trip(rtype_at(d, starts[k as int]) as u16);
        }
        let ghost old_out = out@;
        if rec.rtype.to_u16() == 2 {
            match parse_name_at_offset(response, rec.rdata_offset) {
                Ok(n) => {
                    out.push(n);
                },
                Err(_) => {},
            }
        }
        proof {
            assert forall|i: int| 0 <= i < out@.len() implies (#[trigger] out@[i])@ == ns_names_spec(d, starts.take(k + 1))[i] by {
                if i < old_out.len() {
                    assert(out@[i] == old_out[i]);
                }
            }
        }
        k = k + 1;
    }
    assert(starts.take(k as int) =~= starts);
    out
}

pub(crate) fn glue_of(recs: &Vec<DnsRecord>, Ghost(d): Ghost<Seq<u8>>, Ghost(starts): Ghost<Seq<int>>) -> (r: Vec<(String, u32)>)
    requires
        records_match(recs@, d, starts),
        forall|i: int| 0 <= i < starts.len() ==> crate::wire::item_end(d, #[trigger] starts[i], true) is Some,
    ensures
        r@.len() == glue_spec(d, starts).len(),
        forall|i: int|
            0 <= i < r@.len() ==> (#[trigger] r@[i]).0@ == glue_spec(d, starts)[i].0 && r@[i].1
                == glue_spec(d, starts)[i].1,
{
    let mut out: Vec<(String, u32)> = Vec::new();
    let mut k: usize = 0;
    while k < recs.len()
        invariant
            records_match(recs@, d, starts),
            forall|i: int| 0 <= i < starts.len() ==> crate::wire::item_end(d, #[trigger] starts[i], true) is Some,
            k <= recs@.len(),
            out@.len() == glue_spec(d, starts.take(k as int)).len(),
            forall|i: int|
                0 <= i < out@.len() ==> (#[trigger] out@[i]).0@ == glue_spec(d, starts.take(k as int))[i].0
                    && out@[i].1 == glue_spec(d, starts.take(k as int))[i].1,
        decreases recs@.len() - k,
    {
        let rec = &recs[k];
        assert(record_matches(recs@[k as int], d, starts[k as int]));
        assert(starts.take(k + 1).drop_last() =~= starts.take(k as int));
        proof {
            crate::types::lemma_type_code_round_trip(rtype_at(d, starts[k as int]) as u16);
        }
        let ghost old_out = out@;
        if rec.rtype.to_u16() == 1 && rec.rdata.len() == 4 {
            let ip = crate::wire::read_u32(rec.rdata.as_slice(), 0);
            proof {
                let ne = name_end(d, starts[k as int]);
                assert(crate::wire::item_end(d, starts[k as int], true) is Some);
                crate::wire::lemma_name_end_after(d, starts[k as int], crate::wire::MAX_NAME_JUMPS as nat);
                assert(rec.rdata@[0] == d[ne + 10]);
                assert(rec.rdata@[1] == d[ne + 11]);
                assert(rec.rdata@[2] == d[ne + 12]);
                assert(rec.rdata@[3] == d[ne + 13]);
            }
            out.push((lower_ascii(rec.name.as_str()), ip));
        }
        proof {
            assert forall|i: int|
                0 <= i < out@.len() implies (#[trigger] out@[i]).0@ == glue_spec(d, starts.take(k + 1))[i].0
                    && out@[i].1 == glue_spec(d, starts.take(k + 1))[i].1 by {
                if i < old_out.len() {
                    assert(out@[i] == old_out[i]);
                }
            }
        }
        k = k + 1;
    }
    assert(starts.take(k as int) =~= starts);
    out
}

fn contains_string(v: &Vec<String>, s: &String) -> (r: bool)
    ensures
        r == exists|i: int| 0 <= i < v@.len() && (#[trigger] v@[i])@ == s@,
{
    let mut i: usize = 0;
    while i < v.len()
        invariant
            i <= v@.len(),
            forall|j: int| 0 <= j < i ==> (#[trigger] v@[j])@ != s@,
        decreases v@.len() - i,
    {
        if v[i] == *s {
            return true;
        }
        i = i + 1;
    }
    false
}

fn addrs_for_names(glue: &Vec<(String, u32)>, names: &Vec<String>, Ghost(g): Ghost<Seq<(Seq<char>, u32)>>, Ghost(ns): Ghost<Seq<Seq<char>>>) -> (r: Vec<ServerAddr>)
    requires
        glue@.len() == g.len(),
        forall|i: int| 0 <= i < g.len() ==> (#[trigger] glue@[i]).0@ == g[i].0 && glue@[i].1 == g[i].1,
        names@.len() == ns.len(),
        forall|i: int| 0 <= i < ns.len() ==> (#[trigger] names@[i])@ == ns[i],
    ensures
        r@ == glue_addrs(g, ns),
{
    let mut out: Vec<ServerAddr> = Vec::new();
    let mut k: usize = 0;
    while k < glue.len()
        invariant
            glue@.len() == g.len(),
            forall|i: int| 0 <= i < g.len() ==> (#[trigger] glue@[i]).0@ == g[i].0 && glue@[i].1 == g[i].1,
            names@.len() == ns.len(),
            forall|i: int| 0 <= i < ns.len() ==> (#[trigger] names@[i])@ == ns[i],
            k <= glue@.len(),
            out@ == glue_addrs(g.take(k as int), ns),
        decreases glue@.len() - k,
    {
        assert(g.take(k + 1).drop_last() =~= g.take(k as int));
        let found = contains_string(names, &glue[k].0);
        proof {
            if found {
                let i = choose|i: int| 0 <= i < names@.len() && (#[trigger] names@[i])@ == glue@[k as int].0@;
                assert(ns[i] == g[k as int].0);
            } else {
                assert forall|i: int| 0 <= i < ns.len() implies ns[i] != g[k as int].0 by {
                    assert(names@[i]@ == ns[i]);
                }
            }
        }
        if found {
            out.push(ServerAddr { ip: glue[k].1, port: DNS_PORT });
        }
        k = k + 1;
    }
    assert(g.take(k as int) =~= g);
    out
}

fn has_rtype(recs: &Vec<DnsRecord>, t: u16, Ghost(d): Ghost<Seq<u8>>, Ghost(starts): Ghost<Seq<int>>) -> (r: Option<usize>)
    requires
        records_match(recs@, d, starts),
    ensures
        match r {
            Some(i) => has_type(d, starts, t as int) && i == first_of_type(d, starts, t as int) && i
                < recs@.len(),
            None => !has_type(d, starts, t as int),
        },
{
    let mut k: usize = 0;
    while k < recs.len()
        invariant
            records_match(recs@, d, starts),
            k <= recs@.len(),
            forall|j: int| 0 <= j < k ==> rtype_at(d, #[trigger] starts[j]) != t,
        decreases recs@.len() - k,
    {
        assert(record_matches(recs@[k as int], d, starts[k as int]));
        proof {
            crate::types::lemma_type_code_round_trip(rtype_at(d, starts[k as int]) as u16);
        }
        if recs[k].rtype.to_u16() == t {
            proof {
                let c = first_of_type(d, starts, t as int);
                assert(rtype_at(d, starts[k as int]) == t);
                if c != k {
                    if c < k {
                        assert(rtype_at(d, starts[c]) != t);
                    } else {
                        assert(rtype_at(d, starts[k as int]) != t);
                    }
                }
            }
            return Some(k);
        }
        k = k + 1;
    }
    None
}

/// The classification of a response to a query for `qname`.
pub open spec fn classify_spec(d: Seq<u8>) -> int {
    match layout(d) {
        None => 0,
        Some(l) => if rcode_of((be16(d, 2) as u16 & 0xF) as u8) == ResponseCode::NxDomain {
            3
        } else if be16(d, 6) > 0 {
            1
        } else if be16(d, 8) > 0 && has_type(d, l.authorities, 2) {
            2
        } else if be16(d, 8) > 0 && has_type(d, l.authorities, 6) {
            1
        } else {
            0
        },
    }
}

/// What `classify_response` makes of the response `d`.
pub open spec fn classified(r: DfsResult, d: Seq<u8>) -> bool {
    &&& classify_spec(d) == 0 ==> r is Error
    &&& classify_spec(d) == 1 ==> (r matches DfsResult::Answer(b) && b@ == d)
    &&& classify_spec(d) == 3 ==> (r matches DfsResult::NxDomain(b) && b@ == d)
    &&& classify_spec(d) == 2 ==> ({
        let l = layout(d)->Some_0;
        let names = ns_names_spec(d, l.authorities);
        let glue = glue_spec(d, l.additionals);
        r matches DfsResult::Referral { ns_names, ns_addrs, zone, glue_records }
            && ns_names@.len() == names.len()
            && (forall|i: int| 0 <= i < names.len() ==> (#[trigger] ns_names@[i])@ == names[i])
            && zone@ == referral_zone(d)
            && glue_records@.len() == glue.len()
            && (forall|i: int| 0 <= i < glue.len() ==> (#[trigger] glue_records@[i]).0@ == glue[i].0
                && glue_records@[i].1 == glue[i].1)
            && ns_addrs@ == glue_addrs(glue, lower_all(names))
    })
}

/// The zone that a referral names: the owner of its first NS record.
pub open spec fn referral_zone(d: Seq<u8>) -> Seq<char> {
    let l = layout(d)->Some_0;
    owner_at(d, l.authorities[first_of_type(d, l.authorities, 2)])
}

/// Classifies an authority's response: NXDOMAIN by its RCODE; an answer
/// when it has answers, or when its authority section has an SOA and no NS
/// (NODATA); a referral when the authority section has NS records, with
/// their targets, the zone they name, the A records of the additional
/// section as glue, and the glue addresses of the NS targets; otherwise an
/// error.
pub fn classify_response(response: &[u8]) -> (r: DfsResult)
    ensures
        classified(r, response@),
{
    let p = match parse_packet(response) {
        Ok(p) => p,
        Err(_) => return DfsResult::Error,
    };
    let ghost d = response@;
    let ghost l = layout(d)->Some_0;
    proof {
        crate::wire::lemma_layout_items(d);
    }
    if p.header.rcode == ResponseCode::NxDomain {
        return DfsResult::NxDomain(crate::wire::copy_bytes(response));
    }
    if p.header.ancount > 0 {
        return DfsResult::Answer(crate::wire::copy_bytes(response));
    }
    if p.header.nscount > 0 {
        let first_ns = has_rtype(&p.authorities, 2, Ghost(d), Ghost(l.authorities));
        match first_ns {
            Some(i) => {
                let ns_names = ns_names_of(&p.authorities, response, Ghost(l.authorities));
                let glue = glue_of(&p.additionals, Ghost(d), Ghost(l.additionals));
                let mut lowered: Vec<String> = Vec::new();
                let mut k: usize = 0;
                while k < ns_names.len()
                    invariant
                        k <= ns_names@.len(),
                        lowered@.len() == k,
                        forall|j: int| 0 <= j < k ==> (#[trigger] lowered@[j])@ == ns_names@[j]@.map_values(|c: char| ascii_lower(c)),
                    decreases ns_names@.len() - k,
                {
                    lowered.push(lower_ascii(ns_names[k].as_str()));
                    k = k + 1;
                }
                let ghost names = ns_names_spec(d, l.authorities);
                let ns_addrs = addrs_for_names(&glue, &lowered, Ghost(glue_spec(d, l.additionals)), Ghost(lower_all(names)));
                assert(record_matches(p.authorities@[i as int], d, l.authorities[i as int]));
                let zone = p.authorities[i].name.clone();
                return DfsResult::Referral { ns_names, ns_addrs, zone, glue_records: glue };
            },
            None => {
                if has_rtype(&p.authorities, 6, Ghost(d), Ghost(l.authorities)).is_some() {
                    return DfsResult::Answer(crate::wire::copy_bytes(response));
                }
            },
        }
    }
    DfsResult::Error
}

} // verus!
