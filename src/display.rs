//! Human-readable text of record data, for logs and the web UI.
use vstd::prelude::*;
use vstd::string::*;
use crate::name::{join_labels, labels_at};
use crate::text::{append_decimal, append_hex, decimal_chars, hex_chars, lossy_text, text_from_bytes};
use crate::types::RecordType;
use crate::wire::{be16, parse_name_standalone, read_u16};

verus! {

/// `(binary N bytes)`.
pub open spec fn binary_text(n: nat) -> Seq<char> {
    "(binary "@ + decimal_chars(n) + " bytes)"@
}

/// The dotted-quad text of four bytes.
pub open spec fn ipv4_text(r: Seq<u8>) -> Seq<char> {
    decimal_chars(r[0] as nat) + "."@ + decimal_chars(r[1] as nat) + "."@ + decimal_chars(r[2] as nat)
        + "."@ + decimal_chars(r[3] as nat)
}

/// The first `k` groups of an IPv6 address in hexadecimal, joined by `:`.
pub open spec fn ipv6_groups(r: Seq<u8>, k: int) -> Seq<char>
    decreases k,
{
    if k <= 0 {
        Seq::empty()
    } else if k == 1 {
        hex_chars(be16(r, 0) as nat)
    } else {
        ipv6_groups(r, k - 1) + ":"@ + hex_chars(be16(r, 2 * (k - 1)) as nat)
    }
}

/// The texts of the character-strings of TXT rdata from `pos`, up to the
/// first one that runs past the end.
pub open spec fn txt_text(r: Seq<u8>, pos: int) -> Seq<char>
    decreases r.len() - pos,
{
    if pos < 0 || pos >= r.len() {
        Seq::empty()
    } else {
        let n = r[pos] as int;
        if pos + 1 + n <= r.len() {
            lossy_text(r.subrange(pos + 1, pos + 1 + n)) + txt_text(r, pos + 1 + n)
        } else {
            Seq::empty()
        }
    }
}

/// The text of a name held in rdata without compression, if it parses.
pub open spec fn standalone_text(r: Seq<u8>) -> Option<Seq<char>> {
    match labels_at(r, 0, 0) {
        Some(ls) => Some(lossy_text(join_labels(ls))),
        None => None,
    }
}

/// The display text of rdata of type `t`.
pub open spec fn rdata_text(t: RecordType, r: Seq<u8>) -> Seq<char> {
    if t == RecordType::A && r.len() == 4 {
        ipv4_text(r)
    } else if t == RecordType::AAAA && r.len() == 16 {
        ipv6_groups(r, 8)
    } else if t == RecordType::CNAME || t == RecordType::NS || t == RecordType::PTR {
        match standalone_text(r) {
            Some(n) => n,
            None => binary_text(r.len()),
        }
    } else if t == RecordType::MX && r.len() >= 3 {
        let pref = decimal_chars(be16(r, 0) as nat);
        match standalone_text(r.skip(2)) {
            Some(n) => pref + " "@ + n,
            None => pref + " (binary)"@,
        }
    } else if t == RecordType::TXT {
        "\""@ + txt_text(r, 0) + "\""@
    } else {
        binary_text(r.len())
    }
}

fn binary(n: usize) -> (r: String)
    ensures
        r@ == binary_text(n as nat),
{
    let mut s = String::from_str("(binary ");
    append_decimal(&mut s, n as u64);
    s.append(" bytes)");
    s
}

fn txt(rdata: &[u8]) -> (r: String)
    ensures
        r@ == txt_text(rdata@, 0),
{
    let mut out = String::new();
    let mut pos: usize = 0;
    while pos < rdata.len()
        invariant
            pos <= rdata@.len(),
            txt_text(rdata@, 0) == out@ + txt_text(rdata@, pos as int),
        decreases rdata@.len() - pos,
    {
        let n = rdata[pos] as usize;
        if n > rdata.len() - pos - 1 {
            assert(out@ + Seq::<char>::empty() =~= out@);
            return out;
        }
        let seg = text_from_bytes(slice_range(rdata, pos + 1, pos + 1 + n).as_slice());
        let ghost before = out@;
        out.append(seg.as_str());
        proof {
            assert(before + (seg@ + txt_text(rdata@, (pos + 1 + n) as int)) =~= out@ + txt_text(
                rdata@,
                (pos + 1 + n) as int,
            ));
        }
        pos = pos + 1 + n;
    }
    assert(out@ + Seq::<char>::empty() =~= out@);
    out
}

fn slice_range(d: &[u8], from: usize, to: usize) -> (r: Vec<u8>)
    requires
        from <= to <= d@.len(),
    ensures
        r@ == d@.subrange(from as int, to as int),
{
    let mut v: Vec<u8> = Vec::new();
    crate::name::extend_from_range(&mut v, d, from, to);
    assert(v@ =~= d@.subrange(from as int, to as int));
    v
}

/// Formats rdata for display: dotted quads for A, hexadecimal groups for
/// AAAA, the target name for CNAME/NS/PTR (read without compression), the
/// preference and exchange for MX, the quoted text for TXT, and the length
/// for anything else or anything malformed.
pub fn format_rdata(rtype: &RecordType, rdata: &[u8], full_packet: &[u8]) -> (r: String)
    ensures
        r@ == rdata_text(*rtype, rdata@),
{
    proof {
        reveal_strlit(".");
        reveal_strlit(":");
    }
    match rtype {
        RecordType::A if rdata.len() == 4 => {
            let mut s = String::new();
            append_decimal(&mut s, rdata[0] as u64);
            s.append(".");
            append_decimal(&mut s, rdata[1] as u64);
            s.append(".");
            append_decimal(&mut s, rdata[2] as u64);
            s.append(".");
            append_decimal(&mut s, rdata[3] as u64);
            assert(s@ =~= ipv4_text(rdata@));
            s
        },
        RecordType::AAAA if rdata.len() == 16 => {
            let mut s = String::new();
            let mut i: usize = 0;
            while i < 8
                invariant
                    rdata@.len() == 16,
                    i <= 8,
                    s@ == ipv6_groups(rdata@, i as int),
                decreases 8 - i,
            {
                if i > 0 {
                    s.append(":");
                }
                append_hex(&mut s, read_u16(rdata, 2 * i) as u64);
                i = i + 1;
            }
            s
        },
        RecordType::CNAME | RecordType::NS | RecordType::PTR => {
            match parse_name_standalone(rdata) {
                Ok(name) => name,
                Err(_) => binary(rdata.len()),
            }
        },
        RecordType::MX if rdata.len() >= 3 => {
            let mut s = String::new();
            append_decimal(&mut s, read_u16(rdata, 0) as u64);
            let rest = slice_range(rdata, 2, rdata.len());
            assert(rest@ =~= rdata@.skip(2));
            match parse_name_standalone(rest.as_slice()) {
                Ok(name) => {
                    s.append(" ");
                    s.append(name.as_str());
                },
                Err(_) => {
                    s.append(" (binary)");
                },
            }
            s
        },
        RecordType::TXT => {
            let mut s = String::from_str("\"");
            let body = txt(rdata);
            s.append(body.as_str());
            s.append("\"");
            s
        },
        _ => binary(rdata.len()),
    }
}

} // verus!
