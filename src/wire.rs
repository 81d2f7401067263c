//! DNS messages on the wire: header, questions and resource records.
use vstd::prelude::*;
use crate::name::{
    encode_name, encode_spec, extend_from_range, join_labels, labels_at, name_end, name_labels,
    parse_name, parse_name_bytes,
};
use crate::text::text_from_bytes;
use crate::types::type_code;
use vstd::string::*;
use crate::text::lossy_text;
use crate::types::{
    class_of_code, rcode_of, type_of_code, DnsClass, RecordType, ResponseCode,
};

verus! {

/// Why a message could not be read or built.
#[derive(Debug, Clone, Copy, PartialEq, Eq, Structural)]
pub enum WireError {
    /// Fewer bytes than a header needs.
    TooShort,
    /// A name, question or record runs past the end or is malformed.
    Malformed,
}

/// The length of the fixed header.
pub const HEADER_LEN: usize = 12;

/// The record type of the EDNS pseudo-record, whose TTL field is not a TTL.
pub const TYPE_OPT: u16 = 41;

/// The big-endian 16-bit value at `i`.
pub open spec fn be16(d: Seq<u8>, i: int) -> int {
    d[i] * 256 + d[i + 1]
}

/// The big-endian 32-bit value at `i`.
pub open spec fn be32(d: Seq<u8>, i: int) -> int {
    ((d[i] * 256 + d[i + 1]) * 256 + d[i + 2]) * 256 + d[i + 3]
}

pub fn read_u16(d: &[u8], i: usize) -> (r: u16)
    requires
        i + 2 <= d@.len(),
    ensures
        r == be16(d@, i as int),
{
    (d[i] as u16) * 256 + d[i + 1] as u16
}

pub fn read_u32(d: &[u8], i: usize) -> (r: u32)
    requires
        i + 4 <= d@.len(),
    ensures
        r == be32(d@, i as int),
{
    (((d[i] as u32) * 256 + d[i + 1] as u32) * 256 + d[i + 2] as u32) * 256 + d[i + 3] as u32
}

/// The offset after the question (`rec` false) or resource record (`rec`
/// true) that starts at `pos`.
pub open spec fn item_end(d: Seq<u8>, pos: int, rec: bool) -> Option<int> {
    if name_labels(d, pos) is None {
        None
    } else {
        let ne = name_end(d, pos);
        if !rec {
            if ne + 4 <= d.len() {
                Some(ne + 4)
            } else {
                None
            }
        } else if ne + 10 <= d.len() && ne + 10 + be16(d, ne + 8) <= d.len() {
            Some(ne + 10 + be16(d, ne + 8))
        } else {
            None
        }
    }
}

/// The start of each of `n` consecutive items from `pos`, and the offset
/// after the last one.
pub open spec fn section(d: Seq<u8>, pos: int, n: nat, rec: bool) -> Option<(Seq<int>, int)>
    decreases n,
{
    if n == 0 {
        Some((Seq::empty(), pos))
    } else {
        match item_end(d, pos, rec) {
            Some(e) => match section(d, e, (n - 1) as nat, rec) {
                Some((starts, end)) => Some((seq![pos] + starts, end)),
                None => None,
            },
            None => None,
        }
    }
}

/// Where each question and record of a message starts.
pub struct Layout {
    pub questions: Seq<int>,
    pub answers: Seq<int>,
    pub authorities: Seq<int>,
    pub additionals: Seq<int>,
    /// The offset after the additional section.
    pub end: int,
}

/// The layout of a message, where all its sections can be read.
pub open spec fn layout(d: Seq<u8>) -> Option<Layout> {
    if d.len() < 12 {
        None
    } else {
        match section(d, 12, be16(d, 4) as nat, false) {
            Some((qs, e1)) => match section(d, e1, be16(d, 6) as nat, true) {
                Some((ans, e2)) => match section(d, e2, be16(d, 8) as nat, true) {
                    Some((ns, e3)) => match section(d, e3, be16(d, 10) as nat, true) {
                        Some((ar, e4)) => Some(
                            Layout {
                                questions: qs,
                                answers: ans,
                                authorities: ns,
                                additionals: ar,
                                end: e4,
                            },
                        ),
                        None => None,
                    },
                    None => None,
                },
                None => None,
            },
            None => None,
        }
    }
}

/// The message header.
#[derive(Debug, Clone)]
pub struct DnsHeader {
    pub id: u16,
    pub qr: bool,
    pub opcode: u8,
    pub aa: bool,
    pub tc: bool,
    pub rd: bool,
    pub ra: bool,
    pub z: u8,
    pub rcode: ResponseCode,
    pub qdcount: u16,
    pub ancount: u16,
    pub nscount: u16,
    pub arcount: u16,
}

/// A question: name, type and class.
#[derive(Debug, Clone)]
pub struct DnsQuestion {
    pub name: String,
    pub qtype: RecordType,
    pub qclass: DnsClass,
}

/// A resource record, with the offset of its rdata in the whole message so
/// that names inside rdata can follow compression pointers.
#[derive(Debug, Clone)]
pub struct DnsRecord {
    pub name: String,
    pub rtype: RecordType,
    pub rclass: DnsClass,
    pub ttl: u32,
    pub rdlength: u16,
    pub rdata: Vec<u8>,
    pub rdata_offset: usize,
}

/// A parsed message, with the bytes it was read from.
#[derive(Debug, Clone)]
pub struct DnsPacket {
    pub header: DnsHeader,
    pub questions: Vec<DnsQuestion>,
    pub answers: Vec<DnsRecord>,
    pub authorities: Vec<DnsRecord>,
    pub additionals: Vec<DnsRecord>,
    pub raw: Vec<u8>,
}

/// The header as the first twelve bytes of `d` give it.
pub open spec fn header_matches(h: DnsHeader, d: Seq<u8>) -> bool {
    let flags = be16(d, 2) as u16;
    &&& h.id == be16(d, 0)
    &&& h.qr == ((flags >> 15u16) & 1 == 1)
    &&& h.opcode == ((flags >> 11u16) & 0xF) as u8
    &&& h.aa == ((flags >> 10u16) & 1 == 1)
    &&& h.tc == ((flags >> 9u16) & 1 == 1)
    &&& h.rd == ((flags >> 8u16) & 1 == 1)
    &&& h.ra == ((flags >> 7u16) & 1 == 1)
    &&& h.z == ((flags >> 4u16) & 0x7) as u8
    &&& h.rcode == rcode_of((flags & 0xF) as u8)
    &&& h.qdcount == be16(d, 4)
    &&& h.ancount == be16(d, 6)
    &&& h.nscount == be16(d, 8)
    &&& h.arcount == be16(d, 10)
}

/// The question that starts at `start` in `d`.
pub open spec fn question_matches(q: DnsQuestion, d: Seq<u8>, start: int) -> bool {
    let ne = name_end(d, start);
    &&& q.name@ == lossy_text(join_labels(name_labels(d, start)->Some_0))
    &&& q.qtype == type_of_code(be16(d, ne) as u16)
    &&& q.qclass == class_of_code(be16(d, ne + 2) as u16)
}

/// The record that starts at `start` in `d`.
pub open spec fn record_matches(r: DnsRecord, d: Seq<u8>, start: int) -> bool {
    let ne = name_end(d, start);
    &&& r.name@ == lossy_text(join_labels(name_labels(d, start)->Some_0))
    &&& r.rtype == type_of_code(be16(d, ne) as u16)
    &&& r.rclass == class_of_code(be16(d, ne + 2) as u16)
    &&& r.ttl == be32(d, ne + 4)
    &&& r.rdlength == be16(d, ne + 8)
    &&& r.rdata_offset == ne + 10
    &&& r.rdata@ == d.subrange(ne + 10, ne + 10 + be16(d, ne + 8))
}

/// The records of a section, each read at its start.
pub open spec fn records_match(v: Seq<DnsRecord>, d: Seq<u8>, starts: Seq<int>) -> bool {
    &&& v.len() == starts.len()
    &&& forall|i: int| 0 <= i < v.len() ==> record_matches(#[trigger] v[i], d, starts[i])
}

/// The packet that a whole message is read into.
pub open spec fn packet_matches(p: DnsPacket, d: Seq<u8>, l: Layout) -> bool {
    &&& header_matches(p.header, d)
    &&& p.questions@.len() == l.questions.len()
    &&& forall|i: int|
        0 <= i < p.questions@.len() ==> question_matches(
            #[trigger] p.questions@[i],
            d,
            l.questions[i],
        )
    &&& records_match(p.answers@, d, l.answers)
    &&& records_match(p.authorities@, d, l.authorities)
    &&& records_match(p.additionals@, d, l.additionals)
    &&& p.raw@ == d
}

/// Prepends known starts to the outcome of reading the rest of a section.
pub open spec fn after_items(acc: Seq<int>, rest: Option<(Seq<int>, int)>) -> Option<(Seq<int>, int)> {
    match rest {
        Some((s, e)) => Some((acc + s, e)),
        None => None,
    }
}

fn parse_record_at(data: &[u8], pos: usize) -> (r: Option<(DnsRecord, usize)>)
    ensures
        match item_end(data@, pos as int, true) {
            Some(e) => r matches Some((rec, e2)) && e2 == e && record_matches(rec, data@, pos as int),
            None => r is None,
        },
{
    let mut off = pos;
    let name = match parse_name(data, &mut off) {
        Ok(n) => n,
        Err(_) => return None,
    };
    if data.len() < 10 || off > data.len() - 10 {
        return None;
    }
    let rtype = RecordType::from_u16(read_u16(data, off));
    let rclass = DnsClass::from_u16(read_u16(data, off + 2));
    let ttl = read_u32(data, off + 4);
    let rdlength = read_u16(data, off + 8);
    let start = off + 10;
    if rdlength as usize > data.len() - start {
        return None;
    }
    let mut rdata: Vec<u8> = Vec::new();
    extend_from_range(&mut rdata, data, start, start + rdlength as usize);
    assert(rdata@ =~= data@.subrange(start as int, start + rdlength));
    let rec = DnsRecord { name, rtype, rclass, ttl, rdlength, rdata, rdata_offset: start };
    Some((rec, start + rdlength as usize))
}

fn parse_question_at(data: &[u8], pos: usize) -> (r: Option<(DnsQuestion, usize)>)
    ensures
        match item_end(data@, pos as int, false) {
            Some(e) => r matches Some((q, e2)) && e2 == e && question_matches(q, data@, pos as int),
            None => r is None,
        },
{
    let mut off = pos;
    let name = match parse_name(data, &mut off) {
        Ok(n) => n,
        Err(_) => return None,
    };
    if data.len() < 4 || off > data.len() - 4 {
        return None;
    }
    let qtype = RecordType::from_u16(read_u16(data, off));
    let qclass = DnsClass::from_u16(read_u16(data, off + 2));
    Some((DnsQuestion { name, qtype, qclass }, off + 4))
}

/// Reads `count` resource records from `*offset`. On success `*offset` moves
/// past them; on failure it is left where it was.
pub fn parse_records(data: &[u8], offset: &mut usize, count: u16) -> (r: Result<Vec<DnsRecord>, WireError>)
    ensures
        match section(data@, *old(offset) as int, count as nat, true) {
            Some((starts, end)) => r matches Ok(v) && records_match(v@, data@, starts)
                && *final(offset) as int == end,
            None => r is Err && *final(offset) == *old(offset),
        },
{
    let ghost d = data@;
    let ghost start = *offset as int;
    let mut records: Vec<DnsRecord> = Vec::new();
    let ghost mut starts: Seq<int> = Seq::empty();
    let mut pos: usize = *offset;
    let mut k: u16 = 0;
    while k < count
        invariant
            d == data@,
            k <= count,
            section(d, start, count as nat, true) == after_items(
                starts,
                section(d, pos as int, (count - k) as nat, true),
            ),
            records_match(records@, d, starts),
            *offset == *old(offset),
            start == *old(offset) as int,
        decreases count - k,
    {
        match parse_record_at(data, pos) {
            Some((rec, e)) => {
                proof {
                    match section(d, e as int, (count - k - 1) as nat, true) {
                        Some((s, f)) => {
                            assert(starts + (seq![pos as int] + s) =~= starts.push(pos as int) + s);
                        },
                        None => {},
                    }
                    starts = starts.push(pos as int);
                }
                records.push(rec);
                pos = e;
            },
            None => {
                return Err(WireError::Malformed);
            },
        }
        k = k + 1;
    }
    proof {
        assert(starts + Seq::<int>::empty() =~= starts);
    }
    *offset = pos;
    Ok(records)
}

fn parse_questions(data: &[u8], offset: &mut usize, count: u16) -> (r: Result<Vec<DnsQuestion>, WireError>)
    ensures
        match section(data@, *old(offset) as int, count as nat, false) {
            Some((starts, end)) => r matches Ok(v) && v@.len() == starts.len() && (forall|i: int|
                0 <= i < v@.len() ==> question_matches(#[trigger] v@[i], data@, starts[i]))
                && *final(offset) as int == end,
            None => r is Err && *final(offset) == *old(offset),
        },
{
    let ghost d = data@;
    let ghost start = *offset as int;
    let mut qs: Vec<DnsQuestion> = Vec::new();
    let ghost mut starts: Seq<int> = Seq::empty();
    let mut pos: usize = *offset;
    let mut k: u16 = 0;
    while k < count
        invariant
            d == data@,
            k <= count,
            section(d, start, count as nat, false) == after_items(
                starts,
                section(d, pos as int, (count - k) as nat, false),
            ),
            qs@.len() == starts.len(),
            forall|i: int| 0 <= i < qs@.len() ==> question_matches(#[trigger] qs@[i], d, starts[i]),
            *offset == *old(offset),
            start == *old(offset) as int,
        decreases count - k,
    {
        match parse_question_at(data, pos) {
            Some((q, e)) => {
                proof {
                    match section(d, e as int, (count - k - 1) as nat, false) {
                        Some((s, f)) => {
                            assert(starts + (seq![pos as int] + s) =~= starts.push(pos as int) + s);
                        },
                        None => {},
                    }
                    starts = starts.push(pos as int);
                }
                qs.push(q);
                pos = e;
            },
            None => {
                return Err(WireError::Malformed);
            },
        }
        k = k + 1;
    }
    proof {
        assert(starts + Seq::<int>::empty() =~= starts);
    }
    *offset = pos;
    Ok(qs)
}

fn parse_header(data: &[u8]) -> (h: DnsHeader)
    requires
        data@.len() >= 12,
    ensures
        header_matches(h, data@),
{
    let flags = read_u16(data, 2);
    DnsHeader {
        id: read_u16(data, 0),
        qr: (flags >> 15u16) & 1 == 1,
        opcode: ((flags >> 11u16) & 0xF) as u8,
        aa: (flags >> 10u16) & 1 == 1,
        tc: (flags >> 9u16) & 1 == 1,
        rd: (flags >> 8u16) & 1 == 1,
        ra: (flags >> 7u16) & 1 == 1,
        z: ((flags >> 4u16) & 0x7) as u8,
        rcode: ResponseCode::from_u8((flags & 0xF) as u8),
        qdcount: read_u16(data, 4),
        ancount: read_u16(data, 6),
        nscount: read_u16(data, 8),
        arcount: read_u16(data, 10),
    }
}

/// Parses a whole message: the header, then each section in turn.
pub fn parse_packet(data: &[u8]) -> (r: Result<DnsPacket, WireError>)
    ensures
        match layout(data@) {
            Some(l) => r matches Ok(p) && packet_matches(p, data@, l),
            None => r is Err,
        },
        data@.len() < 12 ==> r == Err::<DnsPacket, WireError>(WireError::TooShort),
{
    if data.len() < HEADER_LEN {
        return Err(WireError::TooShort);
    }
    let header = parse_header(data);
    let mut offset: usize = HEADER_LEN;
    let questions = parse_questions(data, &mut offset, header.qdcount)?;
    let answers = parse_records(data, &mut offset, header.ancount)?;
    let authorities = parse_records(data, &mut offset, header.nscount)?;
    let additionals = parse_records(data, &mut offset, header.arcount)?;
    let mut raw: Vec<u8> = Vec::new();
    extend_from_range(&mut raw, data, 0, data.len());
    assert(raw@ =~= data@);
    Ok(DnsPacket { header, questions, answers, authorities, additionals, raw })
}


/// Copies the bytes of `d` into a new vector.
pub fn copy_bytes(d: &[u8]) -> (r: Vec<u8>)
    ensures
        r@ == d@,
{
    let mut r: Vec<u8> = Vec::new();
    extend_from_range(&mut r, d, 0, d.len());
    assert(r@ =~= d@);
    r
}

/// The offset after the question section, where it can be read; otherwise
/// the length of the message.
pub open spec fn question_section_end(d: Seq<u8>) -> int {
    match section(d, 12, be16(d, 4) as nat, false) {
        Some((_, e)) => e,
        None => d.len() as int,
    }
}

/// A SERVFAIL answer to query `q`: the header and question section of `q`,
/// with QR set, AA cleared, RCODE 2 and the three record counts zero.
pub open spec fn servfail_spec(q: Seq<u8>) -> Seq<u8> {
    q.subrange(0, question_section_end(q))
        .update(2, ((q[2] | 0x80u8) & 0xFBu8) as u8)
        .update(3, ((q[3] & 0xF0u8) | 0x02u8) as u8)
        .update(6, 0u8)
        .update(7, 0u8)
        .update(8, 0u8)
        .update(9, 0u8)
        .update(10, 0u8)
        .update(11, 0u8)
}

/// Builds a SERVFAIL response from a query: QR=1, RCODE=2, all record
/// counts zero, and nothing after the question section.
pub fn build_servfail(query: &[u8]) -> (r: Result<Vec<u8>, WireError>)
    ensures
        query@.len() < 12 ==> r == Err::<Vec<u8>, WireError>(WireError::TooShort),
        query@.len() >= 12 ==> (r matches Ok(v) && v@ == servfail_spec(query@)),
{
    if query.len() < HEADER_LEN {
        return Err(WireError::TooShort);
    }
    let mut offset: usize = HEADER_LEN;
    let qd = read_u16(query, 4);
    let end = match parse_questions(query, &mut offset, qd) {
        Ok(_) => offset,
        Err(_) => query.len(),
    };
    proof {
        match section(query@, 12, be16(query@, 4) as nat, false) {
            Some((starts, e)) => {
                lemma_section_bounds(query@, 12, be16(query@, 4) as nat, false);
            },
            None => {},
        }
    }
    let mut response: Vec<u8> = Vec::new();
    extend_from_range(&mut response, query, 0, end);
    response.set(2, (query[2] | 0x80u8) & 0xFBu8);
    response.set(3, (query[3] & 0xF0u8) | 0x02u8);
    response.set(6, 0u8);
    response.set(7, 0u8);
    response.set(8, 0u8);
    response.set(9, 0u8);
    response.set(10, 0u8);
    response.set(11, 0u8);
    Ok(response)
}

/// Sections end no earlier than they start, and inside the message.
pub proof fn lemma_section_bounds(d: Seq<u8>, pos: int, n: nat, rec: bool)
    requires
        section(d, pos, n, rec) is Some,
    ensures
        pos <= section(d, pos, n, rec)->Some_0.1,
        n > 0 ==> section(d, pos, n, rec)->Some_0.1 <= d.len(),
    decreases n,
{
    if n > 0 {
        let e = item_end(d, pos, rec)->Some_0;
        lemma_name_end_after(d, pos, MAX_NAME_JUMPS as nat);
        lemma_section_bounds(d, e, (n - 1) as nat, rec);
    }
}

/// The jump allowance of a name, as a spec constant.
pub const MAX_NAME_JUMPS: usize = 10;

/// A name that parses ends after its start.
pub proof fn lemma_name_end_after(d: Seq<u8>, pos: int, j: nat)
    requires
        crate::name::labels_at(d, pos, j) is Some,
    ensures
        pos < name_end(d, pos) <= d.len(),
    decreases d.len() - pos,
{
    if !crate::name::is_pointer(d[pos]) && d[pos] != 0 {
        lemma_name_end_after(d, pos + 1 + d[pos], j);
    }
}

/// The four big-endian bytes of `t` written at `i`.
pub open spec fn write32(d: Seq<u8>, i: int, t: u32) -> Seq<u8> {
    d.update(i, (t / 16777216) as u8)
        .update(i + 1, ((t / 65536) % 256) as u8)
        .update(i + 2, ((t / 256) % 256) as u8)
        .update(i + 3, (t % 256) as u8)
}

/// `d` with the TTL of each record that starts at one of `starts` set to
/// `t`, except for OPT records; types and positions are read in `d0`.
pub open spec fn rewrite_ttls(d0: Seq<u8>, d: Seq<u8>, starts: Seq<int>, t: u32) -> Seq<u8>
    decreases starts.len(),
{
    if starts.len() == 0 {
        d
    } else {
        let prev = rewrite_ttls(d0, d, starts.drop_last(), t);
        let ne = name_end(d0, starts.last());
        if be16(d0, ne) != TYPE_OPT {
            write32(prev, ne + 4, t)
        } else {
            prev
        }
    }
}

/// The starts of every record of a message, section by section.
pub open spec fn all_records(l: Layout) -> Seq<int> {
    l.answers + l.authorities + l.additionals
}

/// The cached response `c` answered to query `q`: the transaction ID of `q`
/// and the TTL `t` in every record but OPT.
pub open spec fn response_spec(q: Seq<u8>, c: Seq<u8>, t: u32) -> Seq<u8> {
    rewrite_ttls(c, c.update(0, q[0]).update(1, q[1]), all_records(layout(c)->Some_0), t)
}

fn rewrite_section(
    out: &mut Vec<u8>,
    recs: &Vec<DnsRecord>,
    ttl: u32,
    Ghost(d0): Ghost<Seq<u8>>,
    Ghost(base): Ghost<Seq<u8>>,
    Ghost(prior): Ghost<Seq<int>>,
    Ghost(starts): Ghost<Seq<int>>,
)
    requires
        records_match(recs@, d0, starts),
        old(out)@ == rewrite_ttls(d0, base, prior, ttl),
        old(out)@.len() == d0.len(),
        forall|i: int| 0 <= i < starts.len() ==> item_end(d0, #[trigger] starts[i], true) is Some,
    ensures
        final(out)@ == rewrite_ttls(d0, base, prior + starts, ttl),
        final(out)@.len() == d0.len(),
{
    let mut k: usize = 0;
    while k < recs.len()
        invariant
            records_match(recs@, d0, starts),
            out@ == rewrite_ttls(d0, base, prior + starts.take(k as int), ttl),
            out@.len() == d0.len(),
            k <= recs@.len(),
            forall|i: int| 0 <= i < starts.len() ==> item_end(d0, #[trigger] starts[i], true) is Some,
        decreases recs@.len() - k,
    {
        let ghost s = starts[k as int];
        assert((prior + starts.take(k + 1)).drop_last() =~= prior + starts.take(k as int));
        assert((prior + starts.take(k + 1)).last() == s);
        assert(record_matches(recs@[k as int], d0, s));
        assert(item_end(d0, s, true) is Some);
        proof {
            lemma_name_end_after(d0, s, MAX_NAME_JUMPS as nat);
        }
        let rec = &recs[k];
        if rec.rtype.to_u16() != TYPE_OPT {
            proof {
                crate::types::lemma_type_code_round_trip(be16(d0, name_end(d0, s)) as u16);
            }
            let p = rec.rdata_offset - 6;
            out.set(p, (ttl / 16777216) as u8);
            out.set(p + 1, ((ttl / 65536) % 256) as u8);
            out.set(p + 2, ((ttl / 256) % 256) as u8);
            out.set(p + 3, (ttl % 256) as u8);
        } else {
            proof {
                crate::types::lemma_type_code_round_trip(be16(d0, name_end(d0, s)) as u16);
            }
        }
        k = k + 1;
    }
    assert(starts.take(k as int) =~= starts);
}

/// Answers `query` from a cached response: the cached bytes with the
/// query's transaction ID and every TTL but OPT's set to `new_ttl`.
pub fn build_response(query: &[u8], cached_response: &[u8], new_ttl: u32) -> (r: Result<Vec<u8>, WireError>)
    ensures
        (query@.len() < 2 || cached_response@.len() < 12) ==> r is Err,
        (query@.len() >= 2 && cached_response@.len() >= 12) ==> match layout(cached_response@) {
            Some(_) => r matches Ok(v) && v@ == response_spec(query@, cached_response@, new_ttl),
            None => r is Err,
        },
{
    if cached_response.len() < HEADER_LEN || query.len() < 2 {
        return Err(WireError::TooShort);
    }
    let parsed = parse_packet(cached_response)?;
    let ghost d0 = cached_response@;
    let ghost l = layout(d0)->Some_0;
    let mut response = copy_bytes(cached_response);
    response.set(0, query[0]);
    response.set(1, query[1]);
    let ghost base = response@;
    proof {
        lemma_layout_items(d0);
        assert(Seq::<int>::empty() + l.answers =~= l.answers);
    }
    rewrite_section(&mut response, &parsed.answers, new_ttl, Ghost(d0), Ghost(base), Ghost(Seq::empty()), Ghost(l.answers));
    rewrite_section(&mut response, &parsed.authorities, new_ttl, Ghost(d0), Ghost(base), Ghost(l.answers), Ghost(l.authorities));
    rewrite_section(&mut response, &parsed.additionals, new_ttl, Ghost(d0), Ghost(base), Ghost(l.answers + l.authorities), Ghost(l.additionals));
    Ok(response)
}

/// Each start that a section lists begins a readable item.
pub proof fn lemma_section_items(d: Seq<u8>, pos: int, n: nat, rec: bool)
    requires
        section(d, pos, n, rec) is Some,
    ensures
        forall|i: int|
            0 <= i < section(d, pos, n, rec)->Some_0.0.len() ==> item_end(
                d,
                #[trigger] section(d, pos, n, rec)->Some_0.0[i],
                rec,
            ) is Some,
        section(d, pos, n, rec)->Some_0.0.len() == n,
    decreases n,
{
    if n > 0 {
        let e = item_end(d, pos, rec)->Some_0;
        lemma_section_items(d, e, (n - 1) as nat, rec);
        let rest = section(d, e, (n - 1) as nat, rec)->Some_0.0;
        assert forall|i: int|
            0 <= i < section(d, pos, n, rec)->Some_0.0.len() implies item_end(
            d,
            #[trigger] section(d, pos, n, rec)->Some_0.0[i],
            rec,
        ) is Some by {
            if i > 0 {
                assert(section(d, pos, n, rec)->Some_0.0[i] == rest[i - 1]);
            }
        }
    }
}

/// Every record start of a readable message begins a readable record.
pub proof fn lemma_layout_items(d: Seq<u8>)
    requires
        layout(d) is Some,
    ensures
        forall|i: int|
            0 <= i < layout(d)->Some_0.answers.len() ==> item_end(
                d,
                #[trigger] layout(d)->Some_0.answers[i],
                true,
            ) is Some,
        forall|i: int|
            0 <= i < layout(d)->Some_0.authorities.len() ==> item_end(
                d,
                #[trigger] layout(d)->Some_0.authorities[i],
                true,
            ) is Some,
        forall|i: int|
            0 <= i < layout(d)->Some_0.additionals.len() ==> item_end(
                d,
                #[trigger] layout(d)->Some_0.additionals[i],
                true,
            ) is Some,
{
    let (qs, e1) = section(d, 12, be16(d, 4) as nat, false)->Some_0;
    let (ans, e2) = section(d, e1, be16(d, 6) as nat, true)->Some_0;
    let (ns, e3) = section(d, e2, be16(d, 8) as nat, true)->Some_0;
    lemma_section_items(d, e1, be16(d, 6) as nat, true);
    lemma_section_items(d, e2, be16(d, 8) as nat, true);
    lemma_section_items(d, e3, be16(d, 10) as nat, true);
}


/// The two big-endian bytes of `v`.
pub open spec fn be_bytes16(v: u16) -> Seq<u8> {
    seq![(v / 256) as u8, (v % 256) as u8]
}

pub fn push_u16(out: &mut Vec<u8>, v: u16)
    ensures
        final(out)@ == old(out)@ + be_bytes16(v),
{
    out.push((v / 256) as u8);
    out.push((v % 256) as u8);
    assert(final(out)@ =~= old(out)@ + be_bytes16(v));
}

pub fn push_u32(out: &mut Vec<u8>, v: u32)
    ensures
        final(out)@ == old(out)@ + seq![
            (v / 16777216) as u8,
            ((v / 65536) % 256) as u8,
            ((v / 256) % 256) as u8,
            (v % 256) as u8,
        ],
{
    out.push((v / 16777216) as u8);
    out.push(((v / 65536) % 256) as u8);
    out.push(((v / 256) % 256) as u8);
    out.push((v % 256) as u8);
    assert(final(out)@ =~= old(out)@ + seq![
        (v / 16777216) as u8,
        ((v / 65536) % 256) as u8,
        ((v / 256) % 256) as u8,
        (v % 256) as u8,
    ]);
}

/// A query for one question of class IN: the header with the given ID, RD
/// as asked, QDCOUNT 1 and the other counts zero, then the question.
pub open spec fn query_spec(id: u16, name: Seq<u8>, qtype: RecordType, rd: bool) -> Seq<u8> {
    be_bytes16(id) + be_bytes16(if rd { 0x0100u16 } else { 0u16 }) + be_bytes16(1) + be_bytes16(0)
        + be_bytes16(0) + be_bytes16(0) + encode_spec(name) + be_bytes16(type_code(qtype))
        + be_bytes16(1)
}

/// Builds a query message for upstream forwarding.
pub fn build_query(id: u16, name: &str, qtype: RecordType, rd: bool) -> (r: Vec<u8>)
    ensures
        r@ == query_spec(id, name.spec_bytes(), qtype, rd),
{
    let mut packet: Vec<u8> = Vec::new();
    push_u16(&mut packet, id);
    let flags: u16 = if rd {
        0x0100
    } else {
        0x0000
    };
    push_u16(&mut packet, flags);
    push_u16(&mut packet, 1);
    push_u16(&mut packet, 0);
    push_u16(&mut packet, 0);
    push_u16(&mut packet, 0);
    let enc = encode_name(name);
    let ghost before = packet@;
    extend_from_range(&mut packet, enc.as_slice(), 0, enc.len());
    assert(enc@.subrange(0, enc@.len() as int) =~= enc@);
    push_u16(&mut packet, qtype.to_u16());
    push_u16(&mut packet, 1);
    packet
}

/// The name and type of the first question of a query.
pub fn extract_query_info(data: &[u8]) -> (r: Result<(String, RecordType), WireError>)
    ensures
        data@.len() < 12 ==> r == Err::<(String, RecordType), WireError>(WireError::TooShort),
        data@.len() >= 12 ==> match name_labels(data@, 12) {
            Some(ls) => {
                let ne = name_end(data@, 12);
                if ne + 4 <= data@.len() {
                    r matches Ok((n, t)) && n@ == lossy_text(join_labels(ls)) && (vstd::utf8::valid_utf8(join_labels(ls)) ==> n@ == vstd::utf8::decode_utf8(join_labels(ls))) && t == type_of_code(
                        be16(data@, ne) as u16,
                    )
                } else {
                    r is Err
                }
            },
            None => r is Err,
        },
{
    if data.len() < HEADER_LEN {
        return Err(WireError::TooShort);
    }
    let mut offset: usize = HEADER_LEN;
    let name = parse_name(data, &mut offset)?;
    if data.len() < 4 || offset > data.len() - 4 {
        return Err(WireError::Malformed);
    }
    let qtype = RecordType::from_u16(read_u16(data, offset));
    Ok((name, qtype))
}

/// Parses a name that may not use compression pointers, as rdata read on
/// its own holds it.
pub fn parse_name_standalone(data: &[u8]) -> (r: Result<String, WireError>)
    ensures
        match labels_at(data@, 0, 0) {
            Some(ls) => r matches Ok(s) && s@ == lossy_text(join_labels(ls)) && (vstd::utf8::valid_utf8(join_labels(ls)) ==> s@ == vstd::utf8::decode_utf8(join_labels(ls))),
            None => r is Err,
        },
{
    let ghost d = data@;
    let mut out: Vec<u8> = Vec::new();
    let ghost mut acc: Seq<Seq<u8>> = Seq::empty();
    let mut pos: usize = 0;
    let mut first = true;
    loop
        invariant
            d == data@,
            labels_at(d, 0, 0) == crate::name::after_labels(acc, labels_at(d, pos as int, 0)),
            out@ == join_labels(acc),
            first == (acc.len() == 0),
        decreases data@.len() - pos,
    {
        if pos >= data.len() {
            return Err(WireError::Malformed);
        }
        let b = data[pos];
        if b >= 192 || b > 63 {
            return Err(WireError::Malformed);
        }
        if b == 0 {
            assert(acc + Seq::<Seq<u8>>::empty() =~= acc);
            return Ok(text_from_bytes(out.as_slice()));
        }
        let l = b as usize;
        if l > data.len() - pos - 1 {
            return Err(WireError::Malformed);
        }
        let ghost label = d.subrange(pos + 1, pos + 1 + l);
        proof {
            assert(acc.push(label).drop_last() =~= acc);
            match labels_at(d, pos + 1 + l, 0) {
                Some(rest) => {
                    assert(acc + (seq![label] + rest) =~= acc.push(label) + rest);
                },
                None => {},
            }
        }
        if !first {
            out.push(crate::name::DOT);
        }
        first = false;
        extend_from_range(&mut out, data, pos + 1, pos + 1 + l);
        proof {
            acc = acc.push(label);
        }
        pos = pos + 1 + l;
    }
}

/// Parses a name held in rdata when it uses no compression pointers; one
/// that does must be read from the whole message at the rdata's offset.
pub fn parse_name_from_rdata(rdata: &[u8], full_packet: &[u8]) -> (r: Result<String, WireError>)
    ensures
        match labels_at(rdata@, 0, 0) {
            Some(ls) => r matches Ok(s) && s@ == lossy_text(join_labels(ls)) && (vstd::utf8::valid_utf8(join_labels(ls)) ==> s@ == vstd::utf8::decode_utf8(join_labels(ls))),
            None => r is Err,
        },
{
    parse_name_standalone(rdata)
}

impl DnsPacket {
    /// `NAME TYPE (answers: N)` for the first question, or `(empty query)`.
    pub fn summary(&self) -> (r: String)
        ensures
            self.questions@.len() == 0 ==> r@ == "(empty query)"@,
            self.questions@.len() > 0 ==> r@ == self.questions@[0].name@ + " "@ + crate::types::mnemonic_of(
                self.questions@[0].qtype,
            ) + " (answers: "@ + crate::text::decimal_chars(self.header.ancount as nat) + ")"@,
    {
        if self.questions.len() == 0 {
            return String::from_str("(empty query)");
        }
        let q = &self.questions[0];
        let mut s = q.name.clone();
        s.append(" ");
        let t = q.qtype.name();
        s.append(t.as_str());
        s.append(" (answers: ");
        crate::text::append_decimal(&mut s, self.header.ancount as u64);
        s.append(")");
        s
    }
}

} // verus!
