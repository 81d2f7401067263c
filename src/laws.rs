//! Laws about building and then parsing messages.
use vstd::prelude::*;
use crate::name::{is_pointer, labels_at, name_end, name_labels, pointer_target, MAX_JUMPS};
use crate::types::{rcode_of, ResponseCode};
use crate::wire::{
    all_records, be16, be32, header_matches, item_end, layout, response_spec, rewrite_ttls, section, servfail_spec,
    write32, Layout, TYPE_OPT,
};

verus! {

/// Every byte that reading the name at `pos` touches lies in `[lo, hi)`.
pub open spec fn reads_in(d: Seq<u8>, pos: int, jumps: nat, lo: int, hi: int) -> bool
    decreases jumps, d.len() - pos,
{
    if pos < 0 || pos >= d.len() {
        true
    } else if is_pointer(d[pos]) {
        lo <= pos && pos + 1 < hi && (pos + 1 >= d.len() || jumps == 0 || reads_in(
            d,
            pointer_target(d, pos),
            (jumps - 1) as nat,
            lo,
            hi,
        ))
    } else if d[pos] == 0 {
        lo <= pos < hi
    } else if d[pos] > 63 || pos + 1 + d[pos] > d.len() {
        true
    } else {
        lo <= pos && pos + 1 + d[pos] <= hi && reads_in(d, pos + 1 + d[pos], jumps, lo, hi)
    }
}

/// Two messages that agree on `[lo, hi)`, both at least `hi` long.
pub open spec fn agree_on(d1: Seq<u8>, d2: Seq<u8>, lo: int, hi: int) -> bool {
    &&& hi <= d1.len()
    &&& hi <= d2.len()
    &&& forall|i: int| lo <= i < hi ==> d1[i] == d2[i]
}

/// A name read only inside a range parses the same wherever the range is
/// the same.
pub proof fn lemma_name_frame(d1: Seq<u8>, d2: Seq<u8>, pos: int, jumps: nat, lo: int, hi: int)
    requires
        labels_at(d1, pos, jumps) is Some,
        reads_in(d1, pos, jumps, lo, hi),
        agree_on(d1, d2, lo, hi),
        0 <= lo,
    ensures
        labels_at(d2, pos, jumps) == labels_at(d1, pos, jumps),
        name_end(d2, pos) == name_end(d1, pos),
    decreases jumps, d1.len() - pos,
{
    assert(d1[pos] == d2[pos]);
    if is_pointer(d1[pos]) {
        assert(d1[pos + 1] == d2[pos + 1]);
        lemma_name_frame(d1, d2, pointer_target(d1, pos), (jumps - 1) as nat, lo, hi);
    } else if d1[pos] != 0 {
        let n = d1[pos] as int;
        assert(d1.subrange(pos + 1, pos + 1 + n) =~= d2.subrange(pos + 1, pos + 1 + n));
        lemma_name_frame(d1, d2, pos + 1 + n, jumps, lo, hi);
    }
}

/// Each of `n` questions from `pos` is read inside `[lo, hi)`.
pub open spec fn questions_in(d: Seq<u8>, pos: int, n: nat, lo: int, hi: int) -> bool
    decreases n,
{
    if n == 0 {
        true
    } else {
        reads_in(d, pos, MAX_JUMPS as nat, lo, hi) && name_end(d, pos) + 4 <= hi && match item_end(
            d,
            pos,
            false,
        ) {
            Some(e) => questions_in(d, e, (n - 1) as nat, lo, hi),
            None => true,
        }
    }
}

/// A question section read only inside a range reads the same wherever the
/// range is the same, question by question.
pub proof fn lemma_questions_frame(d1: Seq<u8>, d2: Seq<u8>, pos: int, n: nat, lo: int, hi: int)
    requires
        section(d1, pos, n, false) is Some,
        questions_in(d1, pos, n, lo, hi),
        agree_on(d1, d2, lo, hi),
        0 <= lo,
    ensures
        section(d2, pos, n, false) == section(d1, pos, n, false),
        forall|i: int|
            0 <= i < section(d1, pos, n, false)->Some_0.0.len() ==> {
                let s = #[trigger] section(d1, pos, n, false)->Some_0.0[i];
                &&& name_labels(d2, s) == name_labels(d1, s)
                &&& name_end(d2, s) == name_end(d1, s)
                &&& be16(d2, name_end(d1, s)) == be16(d1, name_end(d1, s))
                &&& be16(d2, name_end(d1, s) + 2) == be16(d1, name_end(d1, s) + 2)
            },
    decreases n,
{
    if n > 0 {
        lemma_name_frame(d1, d2, pos, MAX_JUMPS as nat, lo, hi);
        let ne = name_end(d1, pos);
        crate::wire::lemma_name_end_after(d1, pos, MAX_JUMPS as nat);
        assert(d1[ne] == d2[ne] && d1[ne + 1] == d2[ne + 1] && d1[ne + 2] == d2[ne + 2] && d1[ne + 3] == d2[ne + 3]);
        let e = ne + 4;
        lemma_questions_frame(d1, d2, e, (n - 1) as nat, lo, hi);
        let rest = section(d1, e, (n - 1) as nat, false)->Some_0.0;
        assert forall|i: int| 0 <= i < section(d1, pos, n, false)->Some_0.0.len() implies {
            let s = #[trigger] section(d1, pos, n, false)->Some_0.0[i];
            &&& name_labels(d2, s) == name_labels(d1, s)
            &&& name_end(d2, s) == name_end(d1, s)
            &&& be16(d2, name_end(d1, s)) == be16(d1, name_end(d1, s))
            &&& be16(d2, name_end(d1, s) + 2) == be16(d1, name_end(d1, s) + 2)
        } by {
            if i > 0 {
                assert(section(d1, pos, n, false)->Some_0.0[i] == rest[i - 1]);
            }
        }
    }
}

/// The question section of a readable message, read only inside itself.
pub open spec fn self_contained_questions(q: Seq<u8>) -> bool {
    layout(q) is Some && {
        let e = section(q, 12, be16(q, 4) as nat, false)->Some_0.1;
        questions_in(q, 12, be16(q, 4) as nat, 12, e)
    }
}

/// A SERVFAIL built from a readable query whose question names point only
/// into the question section parses again: with the same ID and the same
/// questions, QR set, RCODE 2, and no records.
pub proof fn lemma_servfail_parses(q: Seq<u8>)
    requires
        self_contained_questions(q),
    ensures
        layout(servfail_spec(q)) is Some,
        layout(servfail_spec(q))->Some_0.questions == layout(q)->Some_0.questions,
        layout(servfail_spec(q))->Some_0.answers.len() == 0,
        layout(servfail_spec(q))->Some_0.authorities.len() == 0,
        layout(servfail_spec(q))->Some_0.additionals.len() == 0,
        forall|i: int|
            0 <= i < layout(q)->Some_0.questions.len() ==> {
                let s = #[trigger] layout(q)->Some_0.questions[i];
                let ne = name_end(q, s);
                &&& name_labels(servfail_spec(q), s) == name_labels(q, s)
                &&& name_end(servfail_spec(q), s) == ne
                &&& be16(servfail_spec(q), ne) == be16(q, ne)
                &&& be16(servfail_spec(q), ne + 2) == be16(q, ne + 2)
            },
        be16(servfail_spec(q), 0) == be16(q, 0),
        (((be16(servfail_spec(q), 2) as u16) >> 15u16) & 1) == 1,
        rcode_of(((be16(servfail_spec(q), 2) as u16) & 0xF) as u8) == ResponseCode::ServFail,
{
    let qd = be16(q, 4) as nat;
    let (qs, e) = section(q, 12, qd, false)->Some_0;
    let s = servfail_spec(q);
    crate::wire::lemma_section_bounds(q, 12, qd, false);
    assert(crate::wire::question_section_end(q) == e);
    assert(s.len() == e);
    assert(agree_on(q, s, 12, e));
    lemma_questions_frame(q, s, 12, qd, 12, e);
    assert(be16(s, 4) == be16(q, 4));
    assert(be16(s, 6) == 0 && be16(s, 8) == 0 && be16(s, 10) == 0);
    assert(section(s, e, 0, true) == Some((Seq::<int>::empty(), e)));
    let hi = s[2];
    let lo = s[3];
    assert(hi == ((q[2] | 0x80u8) & 0xFBu8) as u8);
    assert(lo == ((q[3] & 0xF0u8) | 0x02u8) as u8);
    let a = q[2];
    let b = q[3];
    assert(((a | 0x80u8) & 0xFBu8) >= 128u8) by (bit_vector);
    assert(((b & 0xF0u8) | 0x02u8) % 16u8 == 2u8) by (bit_vector);
    let v: u16 = be16(s, 2) as u16;
    assert(be16(s, 2) == hi * 256 + lo);
    assert(v as int == hi * 256 + lo);
    assert(v >= 32768);
    assert(v >= 32768u16 ==> (v >> 15u16) & 1u16 == 1u16) by (bit_vector);
    assert((hi * 256 + lo) % 16 == lo % 16) by (nonlinear_arith)
        requires
            0 <= hi,
            0 <= lo,
    ;
    assert(v & 0xFu16 == v % 16u16) by (bit_vector);
    assert(((v & 0xF) as u8) == 2u8);
}

/// Every byte that reading the name at `pos` touches satisfies `ok`.
pub open spec fn reads_ok(d: Seq<u8>, pos: int, jumps: nat, ok: spec_fn(int) -> bool) -> bool
    decreases jumps, d.len() - pos,
{
    if pos < 0 || pos >= d.len() {
        true
    } else if is_pointer(d[pos]) {
        ok(pos) && pos + 1 < d.len() && ok(pos + 1) && (jumps == 0 || reads_ok(
            d,
            pointer_target(d, pos),
            (jumps - 1) as nat,
            ok,
        ))
    } else if d[pos] == 0 {
        ok(pos)
    } else if d[pos] > 63 || pos + 1 + d[pos] > d.len() {
        true
    } else {
        ok(pos) && (forall|i: int| pos + 1 <= i < pos + 1 + d[pos] ==> #[trigger] ok(i)) && reads_ok(
            d,
            pos + 1 + d[pos],
            jumps,
            ok,
        )
    }
}

/// Two messages of one length that agree wherever `ok` holds.
pub open spec fn agree_where(d1: Seq<u8>, d2: Seq<u8>, ok: spec_fn(int) -> bool) -> bool {
    &&& d1.len() == d2.len()
    &&& forall|i: int| 0 <= i < d1.len() && #[trigger] ok(i) ==> d1[i] == d2[i]
}

/// A name that reads only bytes where two messages agree parses the same in
/// both.
pub proof fn lemma_name_frame_ok(d1: Seq<u8>, d2: Seq<u8>, pos: int, jumps: nat, ok: spec_fn(int) -> bool)
    requires
        labels_at(d1, pos, jumps) is Some,
        reads_ok(d1, pos, jumps, ok),
        agree_where(d1, d2, ok),
    ensures
        labels_at(d2, pos, jumps) == labels_at(d1, pos, jumps),
        name_end(d2, pos) == name_end(d1, pos),
    decreases jumps, d1.len() - pos,
{
    assert(ok(pos));
    assert(d1[pos] == d2[pos]);
    if is_pointer(d1[pos]) {
        assert(ok(pos + 1));
        assert(d1[pos + 1] == d2[pos + 1]);
        lemma_name_frame_ok(d1, d2, pointer_target(d1, pos), (jumps - 1) as nat, ok);
    } else if d1[pos] != 0 {
        let n = d1[pos] as int;
        assert forall|i: int| pos + 1 <= i < pos + 1 + n implies d1[i] == d2[i] by {
            assert(ok(i));
        }
        assert(d1.subrange(pos + 1, pos + 1 + n) =~= d2.subrange(pos + 1, pos + 1 + n));
        lemma_name_frame_ok(d1, d2, pos + 1 + n, jumps, ok);
    }
}

/// Each item of a section is read where `ok` holds: its name, and for a
/// record its type and length fields.
pub open spec fn items_ok(d: Seq<u8>, pos: int, n: nat, rec: bool, ok: spec_fn(int) -> bool) -> bool
    decreases n,
{
    if n == 0 {
        true
    } else {
        let ne = name_end(d, pos);
        &&& reads_ok(d, pos, MAX_JUMPS as nat, ok)
        &&& ok(ne) && ok(ne + 1) && ok(ne + 2) && ok(ne + 3)
        &&& rec ==> ok(ne + 8) && ok(ne + 9)
        &&& match item_end(d, pos, rec) {
            Some(e) => items_ok(d, e, (n - 1) as nat, rec, ok),
            None => true,
        }
    }
}

/// A section whose items are read where two messages agree reads the same
/// in both.
pub proof fn lemma_section_frame_ok(d1: Seq<u8>, d2: Seq<u8>, pos: int, n: nat, rec: bool, ok: spec_fn(int) -> bool)
    requires
        section(d1, pos, n, rec) is Some,
        items_ok(d1, pos, n, rec, ok),
        agree_where(d1, d2, ok),
    ensures
        section(d2, pos, n, rec) == section(d1, pos, n, rec),
        forall|i: int|
            0 <= i < section(d1, pos, n, rec)->Some_0.0.len() ==> {
                let s = #[trigger] section(d1, pos, n, rec)->Some_0.0[i];
                &&& name_labels(d2, s) == name_labels(d1, s)
                &&& name_end(d2, s) == name_end(d1, s)
                &&& be16(d2, name_end(d1, s)) == be16(d1, name_end(d1, s))
            },
    decreases n,
{
    if n > 0 {
        lemma_name_frame_ok(d1, d2, pos, MAX_JUMPS as nat, ok);
        let ne = name_end(d1, pos);
        crate::wire::lemma_name_end_after(d1, pos, MAX_JUMPS as nat);
        assert(d1[ne] == d2[ne] && d1[ne + 1] == d2[ne + 1]);
        if rec {
            assert(d1[ne + 8] == d2[ne + 8] && d1[ne + 9] == d2[ne + 9]);
        }
        let e = item_end(d1, pos, rec)->Some_0;
        lemma_section_frame_ok(d1, d2, e, (n - 1) as nat, rec, ok);
        let rest = section(d1, e, (n - 1) as nat, rec)->Some_0.0;
        assert forall|i: int| 0 <= i < section(d1, pos, n, rec)->Some_0.0.len() implies {
            let s = #[trigger] section(d1, pos, n, rec)->Some_0.0[i];
            &&& name_labels(d2, s) == name_labels(d1, s)
            &&& name_end(d2, s) == name_end(d1, s)
            &&& be16(d2, name_end(d1, s)) == be16(d1, name_end(d1, s))
        } by {
            if i > 0 {
                assert(section(d1, pos, n, rec)->Some_0.0[i] == rest[i - 1]);
            }
        }
    }
}

/// Records of a section lie in order: each one's fixed fields end before the
/// next one starts, and all lie between the section's start and end.
pub proof fn lemma_section_ordered(d: Seq<u8>, pos: int, n: nat)
    requires
        section(d, pos, n, true) is Some,
    ensures
        ({
            let (st, end) = section(d, pos, n, true)->Some_0;
            &&& forall|i: int, j: int| 0 <= i < j < st.len() ==> name_end(d, #[trigger] st[i]) + 10 <= #[trigger] st[j]
            &&& forall|i: int| 0 <= i < st.len() ==> pos <= #[trigger] st[i] && name_end(d, st[i]) + 10 <= end && st[i] < name_end(d, st[i])
            &&& pos <= end
        }),
    decreases n,
{
    crate::wire::lemma_section_bounds(d, pos, n, true);
    if n > 0 {
        let e = item_end(d, pos, true)->Some_0;
        crate::wire::lemma_name_end_after(d, pos, MAX_JUMPS as nat);
        lemma_section_ordered(d, e, (n - 1) as nat);
        let (st, end) = section(d, pos, n, true)->Some_0;
        let rest = section(d, e, (n - 1) as nat, true)->Some_0.0;
        assert forall|i: int| 0 <= i < st.len() implies pos <= #[trigger] st[i] && name_end(d, st[i]) + 10 <= end && st[i] < name_end(d, st[i]) by {
            if i > 0 {
                assert(st[i] == rest[i - 1]);
            }
        }
        assert forall|i: int, j: int| 0 <= i < j < st.len() implies name_end(d, #[trigger] st[i]) + 10 <= #[trigger] st[j] by {
            assert(st[j] == rest[j - 1]);
            if i > 0 {
                assert(st[i] == rest[i - 1]);
            }
        }
    }
}

/// Whether `p` lies in the TTL field of a non-OPT record at `starts`.
pub open spec fn in_ttl_fields(d: Seq<u8>, starts: Seq<int>, p: int) -> bool {
    exists|k: int|
        0 <= k < starts.len() && be16(d, name_end(d, #[trigger] starts[k])) != TYPE_OPT && name_end(d, starts[k])
            + 4 <= p < name_end(d, starts[k]) + 8
}

/// Records in order: each one's fixed fields end before the next starts,
/// and each starts before its name ends.
pub open spec fn ordered(d: Seq<u8>, st: Seq<int>) -> bool {
    &&& forall|i: int, j: int| 0 <= i < j < st.len() ==> name_end(d, #[trigger] st[i]) + 10 <= #[trigger] st[j]
    &&& forall|i: int| 0 <= i < st.len() ==> #[trigger] st[i] < name_end(d, st[i])
}

proof fn lemma_rewrite_outside(d0: Seq<u8>, base: Seq<u8>, starts: Seq<int>, t: u32, p: int)
    requires
        0 <= p < base.len(),
        !in_ttl_fields(d0, starts, p),
        forall|i: int| 0 <= i < starts.len() ==> 0 <= #[trigger] starts[i] && 0 <= name_end(d0, starts[i]) && name_end(d0, starts[i]) + 8 <= base.len(),
    ensures
        rewrite_ttls(d0, base, starts, t)[p] == base[p],
        rewrite_ttls(d0, base, starts, t).len() == base.len(),
    decreases starts.len(),
{
    if starts.len() > 0 {
        let init = starts.drop_last();
        assert(!in_ttl_fields(d0, init, p)) by {
            if in_ttl_fields(d0, init, p) {
                let k = choose|k: int|
                    0 <= k < init.len() && be16(d0, name_end(d0, #[trigger] init[k])) != TYPE_OPT
                        && name_end(d0, init[k]) + 4 <= p < name_end(d0, init[k]) + 8;
                assert(starts[k] == init[k]);
            }
        }
        assert forall|i: int| 0 <= i < init.len() implies 0 <= #[trigger] init[i] && 0 <= name_end(d0, init[i]) && name_end(d0, init[i]) + 8 <= base.len() by {
            assert(init[i] == starts[i]);
        }
        lemma_rewrite_outside(d0, base, init, t, p);
        let k = starts.len() - 1;
        assert(starts[k] == starts.last());
    }
}

proof fn lemma_rewrite_len(d0: Seq<u8>, base: Seq<u8>, starts: Seq<int>, t: u32)
    requires
        forall|i: int| 0 <= i < starts.len() ==> 0 <= #[trigger] starts[i] && 0 <= name_end(d0, starts[i]) && name_end(d0, starts[i]) + 8 <= base.len(),
    ensures
        rewrite_ttls(d0, base, starts, t).len() == base.len(),
    decreases starts.len(),
{
    if starts.len() > 0 {
        let init = starts.drop_last();
        assert forall|i: int| 0 <= i < init.len() implies 0 <= #[trigger] init[i] && 0 <= name_end(d0, init[i]) && name_end(d0, init[i]) + 8 <= base.len() by {
            assert(init[i] == starts[i]);
        }
        lemma_rewrite_len(d0, base, init, t);
        assert(starts[starts.len() - 1] == starts.last());
    }
}

proof fn lemma_rewrite_inside(d0: Seq<u8>, base: Seq<u8>, starts: Seq<int>, t: u32, k: int, m: int)
    requires
        ordered(d0, starts),
        0 <= k < starts.len(),
        0 <= m < 4,
        be16(d0, name_end(d0, starts[k])) != TYPE_OPT,
        forall|i: int| 0 <= i < starts.len() ==> 0 <= #[trigger] starts[i] && 0 <= name_end(d0, starts[i]) && name_end(d0, starts[i]) + 8 <= base.len(),
    ensures
        rewrite_ttls(d0, base, starts, t)[name_end(d0, starts[k]) + 4 + m] == write32(
            base,
            name_end(d0, starts[k]) + 4,
            t,
        )[name_end(d0, starts[k]) + 4 + m],
    decreases starts.len(),
{
    let init = starts.drop_last();
    let last = starts.len() - 1;
    let p = name_end(d0, starts[k]) + 4 + m;
    assert forall|i: int| 0 <= i < init.len() implies 0 <= #[trigger] init[i] && 0 <= name_end(d0, init[i]) && name_end(d0, init[i]) + 8 <= base.len() by {
        assert(init[i] == starts[i]);
    }
    lemma_rewrite_len(d0, base, init, t);
    if k == last {
        assert(starts[k] == starts.last());
        assert(!in_ttl_fields(d0, init, p)) by {
            if in_ttl_fields(d0, init, p) {
                let j = choose|j: int|
                    0 <= j < init.len() && be16(d0, name_end(d0, #[trigger] init[j])) != TYPE_OPT
                        && name_end(d0, init[j]) + 4 <= p < name_end(d0, init[j]) + 8;
                assert(init[j] == starts[j]);
                assert(name_end(d0, starts[j]) + 10 <= starts[k]);
            }
        }
        
        lemma_rewrite_outside(d0, base, init, t, p);
    } else {
        assert(ordered(d0, init)) by {
            assert forall|i: int, j: int| 0 <= i < j < init.len() implies name_end(d0, #[trigger] init[i]) + 10 <= #[trigger] init[j] by {
                assert(init[i] == starts[i] && init[j] == starts[j]);
            }
            assert forall|i: int| 0 <= i < init.len() implies #[trigger] init[i] < name_end(d0, init[i]) by {
                assert(init[i] == starts[i]);
            }
        }
        assert(init[k] == starts[k]);
        assert forall|i: int| 0 <= i < init.len() implies 0 <= #[trigger] init[i] && 0 <= name_end(d0, init[i]) && name_end(d0, init[i]) + 8 <= base.len() by {
            assert(init[i] == starts[i]);
        }
        lemma_rewrite_inside(d0, base, init, t, k, m);
        assert(starts[last] == starts.last());
        assert(name_end(d0, starts[k]) + 10 <= starts[last]);
    }
}

/// The four bytes that `write32` puts down read back as the value.
proof fn lemma_write32_reads_back(d: Seq<u8>, i: int, t: u32)
    requires
        0 <= i,
        i + 4 <= d.len(),
    ensures
        be32(write32(d, i, t), i) == t,
{
    let w = write32(d, i, t);
    assert(w[i] == (t / 16777216) as u8);
    assert(w[i + 1] == ((t / 65536) % 256) as u8);
    assert(w[i + 2] == ((t / 256) % 256) as u8);
    assert(w[i + 3] == (t % 256) as u8);
    let tt = t as int;
    assert(((tt / 16777216 * 256 + (tt / 65536) % 256) * 256 + (tt / 256) % 256) * 256 + tt % 256 == tt)
        by (nonlinear_arith)
        requires
            0 <= tt < 0x1_0000_0000,
    ;
}

/// The positions that answering from the cache rewrites: the ID and the TTL
/// of each record other than OPT.
pub open spec fn rewritten_at(c: Seq<u8>, p: int) -> bool {
    p < 2 || in_ttl_fields(c, all_records(layout(c)->Some_0), p)
}

/// A readable cached response whose names, types and lengths are read only
/// where answering from the cache leaves the bytes alone.
pub open spec fn rewrite_safe(c: Seq<u8>) -> bool {
    layout(c) is Some && {
        let ok = |p: int| !rewritten_at(c, p);
        let e1 = section(c, 12, be16(c, 4) as nat, false)->Some_0.1;
        let e2 = section(c, e1, be16(c, 6) as nat, true)->Some_0.1;
        let e3 = section(c, e2, be16(c, 8) as nat, true)->Some_0.1;
        &&& items_ok(c, 12, be16(c, 4) as nat, false, ok)
        &&& items_ok(c, e1, be16(c, 6) as nat, true, ok)
        &&& items_ok(c, e2, be16(c, 8) as nat, true, ok)
        &&& items_ok(c, e3, be16(c, 10) as nat, true, ok)
    }
}

/// A response answered from the cache with TTL `t` parses again with the
/// same layout; every record but OPT carries TTL `t`; the ID is the query's;
/// and the bytes from the header's flags through the question section are
/// those of the cached response.
pub proof fn lemma_rewritten_response_parses(q: Seq<u8>, c: Seq<u8>, t: u32)
    requires
        q.len() >= 2,
        rewrite_safe(c),
    ensures
        layout(response_spec(q, c, t)) == layout(c),
        forall|i: int|
            0 <= i < all_records(layout(c)->Some_0).len() ==> {
                let s = #[trigger] all_records(layout(c)->Some_0)[i];
                let r = response_spec(q, c, t);
                &&& name_end(r, s) == name_end(c, s)
                &&& be16(r, name_end(r, s)) == be16(c, name_end(c, s))
                &&& be16(c, name_end(c, s)) != TYPE_OPT ==> be32(r, name_end(r, s) + 4) == t
            },
        be16(response_spec(q, c, t), 0) == be16(q, 0),
        ({
            let e1 = section(c, 12, be16(c, 4) as nat, false)->Some_0.1;
            response_spec(q, c, t).subrange(2, e1) == c.subrange(2, e1)
        }),
{
    let l = layout(c)->Some_0;
    let (qs, e1) = section(c, 12, be16(c, 4) as nat, false)->Some_0;
    let (ans, e2) = section(c, e1, be16(c, 6) as nat, true)->Some_0;
    let (ns, e3) = section(c, e2, be16(c, 8) as nat, true)->Some_0;
    let (ar, e4) = section(c, e3, be16(c, 10) as nat, true)->Some_0;
    let all = all_records(l);
    let base = c.update(0, q[0]).update(1, q[1]);
    let r = response_spec(q, c, t);
    let ok = |p: int| !rewritten_at(c, p);
    crate::wire::lemma_section_bounds(c, 12, be16(c, 4) as nat, false);
    lemma_section_ordered(c, e1, be16(c, 6) as nat);
    lemma_section_ordered(c, e2, be16(c, 8) as nat);
    lemma_section_ordered(c, e3, be16(c, 10) as nat);
    assert(all == ans + ns + ar);
    // All records lie after the question section, in order.
    assert(ordered(c, all) && forall|i: int| 0 <= i < all.len() ==> e1 <= #[trigger] all[i] && name_end(c, all[i]) + 10 <= c.len()) by {
        crate::wire::lemma_section_bounds(c, e1, be16(c, 6) as nat, true);
        crate::wire::lemma_section_bounds(c, e2, be16(c, 8) as nat, true);
        crate::wire::lemma_section_bounds(c, e3, be16(c, 10) as nat, true);
        crate::wire::lemma_section_items(c, e1, be16(c, 6) as nat, true);
        crate::wire::lemma_section_items(c, e2, be16(c, 8) as nat, true);
        crate::wire::lemma_section_items(c, e3, be16(c, 10) as nat, true);
        assert forall|i: int| 0 <= i < all.len() implies e1 <= #[trigger] all[i] && name_end(c, all[i]) + 10 <= c.len() && all[i] < name_end(c, all[i]) by {
            if i < ans.len() {
                assert(all[i] == ans[i]);
            } else if i < ans.len() + ns.len() {
                assert(all[i] == ns[i - ans.len()]);
            } else {
                assert(all[i] == ar[i - ans.len() - ns.len()]);
            }
        }
        assert forall|i: int, j: int| 0 <= i < j < all.len() implies name_end(c, #[trigger] all[i]) + 10 <= #[trigger] all[j] by {
            if j < ans.len() {
                assert(all[i] == ans[i] && all[j] == ans[j]);
            } else if j < ans.len() + ns.len() {
                assert(all[j] == ns[j - ans.len()]);
                if i < ans.len() {
                    assert(all[i] == ans[i]);
                } else {
                    assert(all[i] == ns[i - ans.len()]);
                }
            } else {
                assert(all[j] == ar[j - ans.len() - ns.len()]);
                if i < ans.len() {
                    assert(all[i] == ans[i]);
                } else if i < ans.len() + ns.len() {
                    assert(all[i] == ns[i - ans.len()]);
                } else {
                    assert(all[i] == ar[i - ans.len() - ns.len()]);
                }
            }
        }
    }
    assert forall|i: int| 0 <= i < all.len() implies 0 <= #[trigger] all[i] && 0 <= name_end(c, all[i]) && name_end(c, all[i]) + 8 <= base.len() by {
        assert(e1 <= all[i] && name_end(c, all[i]) + 10 <= c.len() && all[i] < name_end(c, all[i]));
    }
    lemma_rewrite_len(c, base, all, t);
    // Bytes that are not rewritten keep their value.
    assert forall|p: int| 0 <= p < c.len() && #[trigger] ok(p) implies c[p] == r[p] by {
        lemma_rewrite_outside(c, base, all, t, p);
    }
    assert(agree_where(c, r, ok));
    // Header bytes 2..12 and the question section lie before every TTL field.
    assert forall|p: int| 2 <= p < e1 implies #[trigger] ok(p) by {
        if in_ttl_fields(c, all, p) {
            let k = choose|k: int|
                0 <= k < all.len() && be16(c, name_end(c, #[trigger] all[k])) != TYPE_OPT && name_end(c, all[k]) + 4
                    <= p < name_end(c, all[k]) + 8;
            assert(e1 <= all[k]);
        }
    }
    assert(r.subrange(2, e1) =~= c.subrange(2, e1)) by {
        assert forall|p: int| 2 <= p < e1 implies r[p] == c[p] by {
            assert(ok(p));
        }
    }
    assert(be16(r, 4) == be16(c, 4) && be16(r, 6) == be16(c, 6) && be16(r, 8) == be16(c, 8) && be16(r, 10) == be16(c, 10)) by {
        assert(ok(4) && ok(5) && ok(6) && ok(7) && ok(8) && ok(9) && ok(10) && ok(11));
    }
    lemma_section_frame_ok(c, r, 12, be16(c, 4) as nat, false, ok);
    lemma_section_frame_ok(c, r, e1, be16(c, 6) as nat, true, ok);
    lemma_section_frame_ok(c, r, e2, be16(c, 8) as nat, true, ok);
    lemma_section_frame_ok(c, r, e3, be16(c, 10) as nat, true, ok);
    assert(layout(r) == layout(c));
    assert(!in_ttl_fields(c, all, 0)) by {
        if in_ttl_fields(c, all, 0) {
            let k = choose|k: int|
                0 <= k < all.len() && be16(c, name_end(c, #[trigger] all[k])) != TYPE_OPT && name_end(c, all[k]) + 4
                    <= 0 < name_end(c, all[k]) + 8;
            assert(e1 <= all[k]);
        }
    }
    lemma_rewrite_outside(c, base, all, t, 0);
    assert(!in_ttl_fields(c, all, 1)) by {
        if in_ttl_fields(c, all, 1) {
            let k = choose|k: int|
                0 <= k < all.len() && be16(c, name_end(c, #[trigger] all[k])) != TYPE_OPT && name_end(c, all[k]) + 4
                    <= 1 < name_end(c, all[k]) + 8;
            assert(e1 <= all[k]);
        }
    }
    lemma_rewrite_outside(c, base, all, t, 1);
    assert forall|i: int| 0 <= i < all.len() implies {
        let s = #[trigger] all[i];
        &&& name_end(r, s) == name_end(c, s)
        &&& be16(r, name_end(r, s)) == be16(c, name_end(c, s))
        &&& be16(c, name_end(c, s)) != TYPE_OPT ==> be32(r, name_end(r, s) + 4) == t
    } by {
        let s = all[i];
        if i < ans.len() {
            assert(s == ans[i]);
        } else if i < ans.len() + ns.len() {
            assert(s == ns[i - ans.len()]);
        } else {
            assert(s == ar[i - ans.len() - ns.len()]);
        }
        let ne = name_end(c, s);
        if be16(c, ne) != TYPE_OPT {
            lemma_rewrite_inside(c, base, all, t, i, 0);
            lemma_rewrite_inside(c, base, all, t, i, 1);
            lemma_rewrite_inside(c, base, all, t, i, 2);
            lemma_rewrite_inside(c, base, all, t, i, 3);
            lemma_write32_reads_back(base, ne + 4, t);
            assert(be32(r, ne + 4) == be32(write32(base, ne + 4, t), ne + 4));
        }
    }
}

} // verus!
