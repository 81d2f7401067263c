//! EDNS0 (RFC 6891): reading private-use options from a query's OPT record
//! and building an OPT record.
use vstd::prelude::*;
use crate::config::EdnsConfig;
use crate::name::extend_from_range;
use crate::wire::{be16, be_bytes16, layout, parse_packet, push_u16, push_u32, read_u16, records_match, DnsRecord, TYPE_OPT};

verus! {

/// The first option code of the private-use range.
pub const PRIVATE_OPTION_FIRST: u16 = 65001;

/// The last option code of the private-use range.
pub const PRIVATE_OPTION_LAST: u16 = 65534;

/// The UDP payload size that an OPT record advertises.
pub const EDNS_UDP_PAYLOAD: u16 = 4096;

/// Private-use options found in a query.
#[derive(Debug, Clone)]
pub struct EdnsMeta {
    pub options: Vec<(u16, Vec<u8>)>,
}

/// Reads and writes EDNS options.
pub struct EdnsHandler {
    config: EdnsConfig,
}

/// The private-use options of OPT rdata from `pos`: (code, length, data)
/// items read while four header bytes remain and the data fits.
pub open spec fn options_from(r: Seq<u8>, pos: int) -> Seq<(u16, Seq<u8>)>
    decreases r.len() - pos,
{
    if pos < 0 || pos + 4 > r.len() {
        Seq::empty()
    } else {
        let code = be16(r, pos);
        let len = be16(r, pos + 2);
        if pos + 4 + len > r.len() {
            Seq::empty()
        } else {
            let rest = options_from(r, pos + 4 + len);
            if PRIVATE_OPTION_FIRST <= code <= PRIVATE_OPTION_LAST {
                seq![(code as u16, r.subrange(pos + 4, pos + 4 + len))] + rest
            } else {
                rest
            }
        }
    }
}

/// Options with their data as sequences.
pub open spec fn options_view(v: Seq<(u16, Vec<u8>)>) -> Seq<(u16, Seq<u8>)> {
    v.map_values(|o: (u16, Vec<u8>)| (o.0, o.1@))
}

/// Parses the private-use options from OPT rdata.
pub fn parse_edns_options(rdata: &[u8]) -> (r: Vec<(u16, Vec<u8>)>)
    ensures
        options_view(r@) == options_from(rdata@, 0),
{
    let mut options: Vec<(u16, Vec<u8>)> = Vec::new();
    let mut offset: usize = 0;
    while rdata.len() >= 4 && offset <= rdata.len() - 4
        invariant
            offset <= rdata@.len(),
            options_from(rdata@, 0) == options_view(options@) + options_from(rdata@, offset as int),
        decreases rdata@.len() - offset,
    {
        let code = read_u16(rdata, offset);
        let length = read_u16(rdata, offset + 2) as usize;
        let start = offset + 4;
        if length > rdata.len() - start {
            assert(options_view(options@) + Seq::<(u16, Seq<u8>)>::empty() =~= options_view(options@));
            return options;
        }
        let ghost before = options@;
        if code >= PRIVATE_OPTION_FIRST && code <= PRIVATE_OPTION_LAST {
            let mut data: Vec<u8> = Vec::new();
            extend_from_range(&mut data, rdata, start, start + length);
            assert(data@ =~= rdata@.subrange(start as int, start + length));
            options.push((code, data));
            proof {
                let rest = options_from(rdata@, (start + length) as int);
                assert(options_view(options@) =~= options_view(before).push((code, data@)));
                assert(options_view(before) + (seq![(code, data@)] + rest) =~= options_view(options@) + rest);
            }
        }
        offset = start + length;
    }
    proof {
        assert(options_from(rdata@, offset as int) =~= Seq::<(u16, Seq<u8>)>::empty());
        assert(options_view(options@) + Seq::<(u16, Seq<u8>)>::empty() =~= options_view(options@));
    }
    options
}

/// The options of the first OPT record among `starts` that has any.
pub open spec fn first_opt_options(d: Seq<u8>, starts: Seq<int>) -> Seq<(u16, Seq<u8>)>
    decreases starts.len(),
{
    if starts.len() == 0 {
        Seq::empty()
    } else {
        let ne = crate::name::name_end(d, starts[0]);
        let opts = options_from(d.subrange(ne + 10, ne + 10 + be16(d, ne + 8)), 0);
        if be16(d, ne) == TYPE_OPT && opts.len() > 0 {
            opts
        } else {
            first_opt_options(d, starts.drop_first())
        }
    }
}

/// The rdata of an OPT record: each option's code, length and data.
pub open spec fn options_rdata(opts: Seq<(u16, &[u8])>) -> Seq<u8>
    decreases opts.len(),
{
    if opts.len() == 0 {
        Seq::empty()
    } else {
        let o = opts.last();
        options_rdata(opts.drop_last()) + be_bytes16(o.0) + be_bytes16((o.1@.len() % 65536) as u16) + o.1@
    }
}

/// An OPT record for the root with a 4096-byte payload size and no
/// extended flags, holding `rdata`.
pub open spec fn opt_record(rdata: Seq<u8>) -> Seq<u8> {
    seq![0u8] + be_bytes16(TYPE_OPT) + be_bytes16(EDNS_UDP_PAYLOAD) + seq![0u8, 0u8, 0u8, 0u8] + be_bytes16(
        (rdata.len() % 65536) as u16,
    ) + rdata
}

impl EdnsHandler {
    pub closed spec fn config_spec(&self) -> EdnsConfig {
        self.config
    }

    pub fn new(config: &EdnsConfig) -> (r: EdnsHandler)
        ensures
            r.config_spec() == *config,
    {
        EdnsHandler { config: *config }
    }

    /// The private-use options of the first OPT record in the additional
    /// section that carries any; none when disabled, unparseable or absent.
    pub fn extract_options(&self, packet: &[u8]) -> (r: Option<EdnsMeta>)
        ensures
            !self.config_spec().enabled ==> r is None,
            self.config_spec().enabled ==> match layout(packet@) {
                None => r is None,
                Some(l) => {
                    let o = first_opt_options(packet@, l.additionals);
                    if o.len() == 0 {
                        r is None
                    } else {
                        r matches Some(m) && options_view(m.options@) == o
                    }
                },
            },
    {
        if !self.config.enabled {
            return None;
        }
        let parsed = match parse_packet(packet) {
            Ok(p) => p,
            Err(_) => return None,
        };
        let ghost d = packet@;
        let ghost starts = layout(d)->Some_0.additionals;
        let recs = &parsed.additionals;
        let mut k: usize = 0;
        assert(starts.subrange(0, starts.len() as int) =~= starts);
        while k < recs.len()
            invariant
                records_match(recs@, d, starts),
                d == packet@,
                self.config_spec().enabled,
                layout(d) is Some,
                starts == layout(d)->Some_0.additionals,
                k <= recs@.len(),
                first_opt_options(d, starts) == first_opt_options(d, starts.subrange(k as int, starts.len() as int)),
            decreases recs@.len() - k,
        {
            let rec = &recs[k];
            assert(crate::wire::record_matches(recs@[k as int], d, starts[k as int]));
            let ghost sub = starts.subrange(k as int, starts.len() as int);
            assert(sub[0] == starts[k as int]);
            assert(sub.drop_first() =~= starts.subrange(k + 1, starts.len() as int));
            proof {
                crate::types::lemma_type_code_round_trip(be16(d, crate::name::name_end(d, starts[k as int])) as u16);
            }
            let ghost ne = crate::name::name_end(d, starts[k as int]);
            assert(rec.rdata@ == d.subrange(ne + 10, ne + 10 + be16(d, ne + 8)));
            if rec.rtype.to_u16() == TYPE_OPT {
                let options = parse_edns_options(rec.rdata.as_slice());
                if options.len() > 0 {
                    assert(options_view(options@).len() > 0);
                    assert(first_opt_options(d, sub) == options_view(options@));
                    return Some(EdnsMeta { options });
                }
            }
            k = k + 1;
        }
        assert(starts.subrange(k as int, starts.len() as int) =~= Seq::<int>::empty());
        None
    }

    /// An OPT record for the root with a 4096-byte payload size, no
    /// extended flags, and the given options.
    pub fn build_opt_record(&self, options: &[(u16, &[u8])]) -> (r: Vec<u8>)
        ensures
            r@ == opt_record(options_rdata(options@)),
    {
        let mut rdata: Vec<u8> = Vec::new();
        let mut i: usize = 0;
        while i < options.len()
            invariant
                i <= options@.len(),
                rdata@ == options_rdata(options@.take(i as int)),
            decreases options@.len() - i,
        {
            let (code, data) = options[i];
            assert(options@.take(i + 1).drop_last() =~= options@.take(i as int));
            push_u16(&mut rdata, code);
            let dl = data.len();
            #[verifier::truncate]
            let dlen = dl as u16;
            assert(dlen == (dl % 65536) as u16) by (bit_vector)
                requires
                    dlen == #[verifier::truncate] (dl as u16),
            ;
            push_u16(&mut rdata, dlen);
            extend_from_range(&mut rdata, data, 0, data.len());
            assert(data@.subrange(0, data@.len() as int) =~= data@);
            assert(rdata@ =~= options_rdata(options@.take(i + 1)));
            i = i + 1;
        }
        assert(options@.take(i as int) =~= options@);
        let mut record: Vec<u8> = Vec::new();
        record.push(0u8);
        push_u16(&mut record, TYPE_OPT);
        push_u16(&mut record, EDNS_UDP_PAYLOAD);
        push_u32(&mut record, 0);
        let rl = rdata.len();
        #[verifier::truncate]
        let rdlen = rl as u16;
        assert(rdlen == (rl % 65536) as u16) by (bit_vector)
            requires
                rdlen == #[verifier::truncate] (rl as u16),
        ;
        push_u16(&mut record, rdlen);
        extend_from_range(&mut record, rdata.as_slice(), 0, rdata.len());
        assert(rdata@.subrange(0, rdata@.len() as int) =~= rdata@);
        assert(record@ =~= opt_record(options_rdata(options@)));
        record
    }
}

} // verus!
