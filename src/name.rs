//! Domain names on the wire: label parsing with compression pointers, and
//! encoding of dotted names.
use vstd::prelude::*;
use vstd::string::StringSliceAdditionalSpecFns;
use crate::text::{lossy_text, text_from_bytes};

verus! {

/// How many compression pointers a name may follow before it is rejected.
pub const MAX_JUMPS: usize = 10;

/// The byte `.` that separates labels in a dotted name.
pub const DOT: u8 = 46;

/// A byte whose top two bits are set starts a compression pointer.
pub open spec fn is_pointer(b: u8) -> bool {
    b >= 192
}

/// The offset that the pointer at `pos` refers to.
pub open spec fn pointer_target(d: Seq<u8>, pos: int) -> int {
    (d[pos] - 192) * 256 + d[pos + 1]
}

/// The labels of the name that starts at `pos`, following at most `jumps`
/// compression pointers; `None` where the name is malformed.
pub open spec fn labels_at(d: Seq<u8>, pos: int, jumps: nat) -> Option<Seq<Seq<u8>>>
    decreases jumps, d.len() - pos,
{
    if pos < 0 || pos >= d.len() {
        None
    } else if is_pointer(d[pos]) {
        if pos + 1 >= d.len() || jumps == 0 {
            None
        } else {
            labels_at(d, pointer_target(d, pos), (jumps - 1) as nat)
        }
    } else if d[pos] == 0 {
        Some(Seq::empty())
    } else if d[pos] > 63 || pos + 1 + d[pos] > d.len() {
        None
    } else {
        match labels_at(d, pos + 1 + d[pos], jumps) {
            Some(rest) => Some(seq![d.subrange(pos + 1, pos + 1 + d[pos])] + rest),
            None => None,
        }
    }
}

/// The offset just past the name that starts at `pos`, where the name is
/// read in place: after its terminating zero, or after its first pointer.
pub open spec fn name_end(d: Seq<u8>, pos: int) -> int
    decreases d.len() - pos,
{
    if pos < 0 || pos >= d.len() {
        -1
    } else if is_pointer(d[pos]) {
        pos + 2
    } else if d[pos] == 0 {
        pos + 1
    } else if d[pos] > 63 || pos + 1 + d[pos] > d.len() {
        -1
    } else {
        name_end(d, pos + 1 + d[pos])
    }
}

/// The name that starts at `pos`, with at most `MAX_JUMPS` pointers.
pub open spec fn name_labels(d: Seq<u8>, pos: int) -> Option<Seq<Seq<u8>>> {
    labels_at(d, pos, MAX_JUMPS as nat)
}

/// Labels joined with dots.
pub open spec fn join_labels(ls: Seq<Seq<u8>>) -> Seq<u8>
    decreases ls.len(),
{
    if ls.len() == 0 {
        Seq::empty()
    } else if ls.len() == 1 {
        ls[0]
    } else {
        join_labels(ls.drop_last()) + seq![DOT] + ls.last()
    }
}

/// Prepends known labels to the outcome of parsing the rest of a name.
pub open spec fn after_labels(acc: Seq<Seq<u8>>, rest: Option<Seq<Seq<u8>>>) -> Option<
    Seq<Seq<u8>>,
> {
    match rest {
        Some(r) => Some(acc + r),
        None => None,
    }
}

/// Appends `d[from..to]` to `out`.
pub fn extend_from_range(out: &mut Vec<u8>, d: &[u8], from: usize, to: usize)
    requires
        from <= to <= d@.len(),
    ensures
        final(out)@ == old(out)@ + d@.subrange(from as int, to as int),
{
    let mut i = from;
    while i < to
        invariant
            from <= i <= to <= d@.len(),
            out@ == old(out)@ + d@.subrange(from as int, i as int),
        decreases to - i,
    {
        out.push(d[i]);
        assert(d@.subrange(from as int, i + 1) =~= d@.subrange(from as int, i as int).push(d@[i as int]));
        i = i + 1;
    }
}

proof fn lemma_join_push(acc: Seq<Seq<u8>>, l: Seq<u8>)
    ensures
        acc.len() == 0 ==> join_labels(acc.push(l)) == l,
        acc.len() > 0 ==> join_labels(acc.push(l)) == join_labels(acc) + seq![DOT] + l,
{
    assert(acc.push(l).drop_last() =~= acc);
}

/// Parses the name at `start` into its dotted bytes and the offset after it.
pub fn parse_name_bytes(data: &[u8], start: usize) -> (r: Option<(Vec<u8>, usize)>)
    ensures
        match name_labels(data@, start as int) {
            Some(ls) => r matches Some((b, e)) && b@ == join_labels(ls) && e as int == name_end(
                data@,
                start as int,
            ),
            None => r is None,
        },
{
    let ghost d = data@;
    let mut out: Vec<u8> = Vec::new();
    let ghost mut acc: Seq<Seq<u8>> = Seq::empty();
    let mut pos: usize = start;
    let mut jumps: usize = 0;
    let mut jumped = false;
    let mut end: usize = 0;
    let mut first = true;
    loop
        invariant
            d == data@,
            jumps <= MAX_JUMPS,
            name_labels(d, start as int) == after_labels(
                acc,
                labels_at(d, pos as int, (MAX_JUMPS - jumps) as nat),
            ),
            out@ == join_labels(acc),
            !jumped ==> name_end(d, start as int) == name_end(d, pos as int),
            jumped ==> end as int == name_end(d, start as int),
            !jumped ==> jumps == 0,
            first == (acc.len() == 0),
        decreases MAX_JUMPS - jumps, data@.len() - pos,
    {
        if pos >= data.len() {
            return None;
        }
        let b = data[pos];
        if b >= 192 {
            if pos + 1 >= data.len() || jumps >= MAX_JUMPS {
                return None;
            }
            if !jumped {
                end = pos + 2;
                jumped = true;
            }
            let target = ((b - 192) as usize) * 256 + data[pos + 1] as usize;
            pos = target;
            jumps = jumps + 1;
        } else if b == 0 {
            if !jumped {
                end = pos + 1;
            }
            proof {
                assert(acc + Seq::<Seq<u8>>::empty() =~= acc);
            }
            return Some((out, end));
        } else if b > 63 {
            return None;
        } else {
            let l = b as usize;
            if l > data.len() - pos - 1 {
                return None;
            }
            let ghost label = d.subrange(pos + 1, pos + 1 + l);
            proof {
                lemma_join_push(acc, label);
                match labels_at(d, pos + 1 + l, (MAX_JUMPS - jumps) as nat) {
                    Some(rest) => {
                        assert(acc + (seq![label] + rest) =~= acc.push(label) + rest);
                    },
                    None => {},
                }
            }
            if !first {
                out.push(DOT);
            }
            first = false;
            extend_from_range(&mut out, data, pos + 1, pos + 1 + l);
            proof {
                acc = acc.push(label);
            }
            pos = pos + 1 + l;
        }
    }
}

/// Parses the name at `*offset` (RFC 1035 §4.1.4), following compression
/// pointers. On success `*offset` moves past the name as it stands at the
/// offset; on failure it is left where it was.
pub fn parse_name(data: &[u8], offset: &mut usize) -> (r: Result<String, crate::wire::WireError>)
    ensures
        match name_labels(data@, *old(offset) as int) {
            Some(ls) => r matches Ok(s) && s@ == lossy_text(join_labels(ls)) && (vstd::utf8::valid_utf8(join_labels(ls)) ==> s@ == vstd::utf8::decode_utf8(join_labels(ls))) && *final(offset) as int
                == name_end(data@, *old(offset) as int),
            None => r is Err && *final(offset) == *old(offset),
        },
{
    match parse_name_bytes(data, *offset) {
        Some((b, e)) => {
            *offset = e;
            Ok(text_from_bytes(b.as_slice()))
        },
        None => Err(crate::wire::WireError::Malformed),
    }
}

/// Parses the name that starts at `offset` in the whole packet, following
/// compression pointers.
pub fn parse_name_at_offset(full_packet: &[u8], offset: usize) -> (r: Result<String, crate::wire::WireError>)
    ensures
        match name_labels(full_packet@, offset as int) {
            Some(ls) => r matches Ok(s) && s@ == lossy_text(join_labels(ls)) && (vstd::utf8::valid_utf8(join_labels(ls)) ==> s@ == vstd::utf8::decode_utf8(join_labels(ls))),
            None => r is Err,
        },
{
    let mut pos = offset;
    parse_name(full_packet, &mut pos)
}


/// A dotted name split at its dots; a name without dots is one label.
pub open spec fn split_dots(b: Seq<u8>) -> Seq<Seq<u8>>
    decreases b.len(),
{
    if b.len() == 0 {
        seq![Seq::empty()]
    } else if b.last() == DOT {
        split_dots(b.drop_last()).push(Seq::empty())
    } else {
        let s = split_dots(b.drop_last());
        s.update(s.len() - 1, s.last().push(b.last()))
    }
}

/// Each label as its length byte followed by its bytes.
pub open spec fn encode_labels(ls: Seq<Seq<u8>>) -> Seq<u8>
    decreases ls.len(),
{
    if ls.len() == 0 {
        Seq::empty()
    } else {
        seq![(ls[0].len() % 256) as u8] + ls[0] + encode_labels(ls.drop_first())
    }
}

/// The wire form of a dotted name: its labels, then the zero byte.
pub open spec fn encode_spec(b: Seq<u8>) -> Seq<u8> {
    if b.len() == 0 {
        seq![0u8]
    } else {
        encode_labels(split_dots(b)) + seq![0u8]
    }
}

/// Labels that a name may hold: one to 63 bytes each, none of them a dot.
pub open spec fn valid_labels(ls: Seq<Seq<u8>>) -> bool {
    forall|i: int|
        0 <= i < ls.len() ==> 1 <= #[trigger] ls[i].len() <= 63 && forall|j: int|
            0 <= j < ls[i].len() ==> ls[i][j] != DOT
}

proof fn lemma_split_len(b: Seq<u8>)
    ensures
        split_dots(b).len() >= 1,
    decreases b.len(),
{
    if b.len() > 0 {
        lemma_split_len(b.drop_last());
    }
}

proof fn lemma_encode_push(ls: Seq<Seq<u8>>, l: Seq<u8>)
    ensures
        encode_labels(ls.push(l)) == encode_labels(ls) + seq![(l.len() % 256) as u8] + l,
    decreases ls.len(),
{
    if ls.len() == 0 {
        assert(ls.push(l).drop_first() =~= Seq::<Seq<u8>>::empty());
        assert(ls.push(l)[0] == l);
        assert(encode_labels(Seq::<Seq<u8>>::empty()) == Seq::<u8>::empty());
        assert(encode_labels(ls) == Seq::<u8>::empty());
        assert(encode_labels(ls.push(l)) =~= encode_labels(ls) + seq![(l.len() % 256) as u8] + l);
    } else {
        assert(ls.push(l).drop_first() =~= ls.drop_first().push(l));
        lemma_encode_push(ls.drop_first(), l);
        assert(ls.push(l)[0] == ls[0]);
        assert(encode_labels(ls.push(l)) == seq![(ls[0].len() % 256) as u8] + ls[0]
            + encode_labels(ls.drop_first().push(l)));
        assert(encode_labels(ls.push(l)) =~= encode_labels(ls) + seq![(l.len() % 256) as u8] + l);
    }
}

fn emit_label(out: &mut Vec<u8>, b: &[u8], from: usize, to: usize)
    requires
        from <= to <= b@.len(),
    ensures
        final(out)@ == old(out)@ + seq![((to - from) % 256) as u8] + b@.subrange(
            from as int,
            to as int,
        ),
{
    #[verifier::truncate]
    let len_byte = (to - from) as u8;
    assert(len_byte == ((to - from) % 256) as u8) by (bit_vector)
        requires
            len_byte == #[verifier::truncate] ((to - from) as u8),
    ;
    out.push(len_byte);
    extend_from_range(out, b, from, to);
}

/// Encodes a dotted name into wire format, label by label; the empty name
/// is the root.
pub fn encode_name(name: &str) -> (r: Vec<u8>)
    ensures
        r@ == encode_spec(name.spec_bytes()),
{
    let b = name.as_bytes();
    let ghost d = b@;
    let mut out: Vec<u8> = Vec::new();
    if b.len() == 0 {
        out.push(0u8);
        assert(out@ =~= encode_spec(d));
        return out;
    }
    let mut cur: usize = 0;
    let mut i: usize = 0;
    proof {
        assert(d.subrange(0, 0) =~= Seq::<u8>::empty());
    }
    while i < b.len()
        invariant
            d == b@,
            cur <= i <= b@.len(),
            out@ == encode_labels(split_dots(d.subrange(0, i as int)).drop_last()),
            split_dots(d.subrange(0, i as int)).len() >= 1,
            split_dots(d.subrange(0, i as int)).last() == d.subrange(cur as int, i as int),
        decreases b@.len() - i,
    {
        let ghost s = split_dots(d.subrange(0, i as int));
        assert(d.subrange(0, i + 1).drop_last() =~= d.subrange(0, i as int));
        if b[i] == DOT {
            emit_label(&mut out, b, cur, i);
            proof {
                assert(s.drop_last().push(s.last()) =~= s);
                lemma_encode_push(s.drop_last(), s.last());
                assert(split_dots(d.subrange(0, i + 1)).drop_last() =~= s);
                assert(d.subrange(i + 1, i + 1) =~= Seq::<u8>::empty());
            }
            cur = i + 1;
        } else {
            proof {
                let s2 = split_dots(d.subrange(0, i + 1));
                assert(s2.drop_last() =~= s.drop_last());
                assert(d.subrange(cur as int, i + 1) =~= d.subrange(cur as int, i as int).push(d[i as int]));
            }
        }
        i = i + 1;
    }
    let ghost s = split_dots(d.subrange(0, i as int));
    emit_label(&mut out, b, cur, i);
    out.push(0u8);
    proof {
        assert(d.subrange(0, i as int) =~= d);
        assert(s.drop_last().push(s.last()) =~= s);
        lemma_encode_push(s.drop_last(), s.last());
        assert(out@ =~= encode_spec(d));
    }
    out
}

proof fn lemma_split_dot_free(l: Seq<u8>)
    requires
        forall|j: int| 0 <= j < l.len() ==> l[j] != DOT,
    ensures
        split_dots(l) == seq![l],
    decreases l.len(),
{
    if l.len() > 0 {
        lemma_split_dot_free(l.drop_last());
        assert(l.drop_last().push(l.last()) =~= l);
        assert(seq![l.drop_last()].update(0, l.drop_last().push(l.last())) =~= seq![l]);
    } else {
        assert(l =~= Seq::<u8>::empty());
    }
}

proof fn lemma_split_after_dot(x: Seq<u8>, l: Seq<u8>)
    requires
        forall|j: int| 0 <= j < l.len() ==> l[j] != DOT,
    ensures
        split_dots(x + seq![DOT] + l) == split_dots(x).push(l),
    decreases l.len(),
{
    if l.len() == 0 {
        assert((x + seq![DOT] + l).drop_last() =~= x);
        assert(l =~= Seq::<u8>::empty());
    } else {
        let l0 = l.drop_last();
        lemma_split_after_dot(x, l0);
        assert((x + seq![DOT] + l).drop_last() =~= x + seq![DOT] + l0);
        let s = split_dots(x).push(l0);
        assert(l0.push(l.last()) =~= l);
        assert((x + seq![DOT] + l).last() == l.last());
        assert(s.update(s.len() - 1, l0.push(l.last())) =~= split_dots(x).push(l));
    }
}

proof fn lemma_split_join(ls: Seq<Seq<u8>>)
    requires
        valid_labels(ls),
        ls.len() >= 1,
    ensures
        split_dots(join_labels(ls)) == ls,
    decreases ls.len(),
{
    if ls.len() == 1 {
        assert(ls[0].len() >= 1);
        lemma_split_dot_free(ls[0]);
        assert(seq![ls[0]] =~= ls);
    } else {
        let init = ls.drop_last();
        assert(valid_labels(init)) by {
            assert forall|i: int| 0 <= i < init.len() implies 1 <= #[trigger] init[i].len() <= 63
                && forall|j: int| 0 <= j < init[i].len() ==> init[i][j] != DOT by {
                assert(init[i] == ls[i]);
            }
        }
        lemma_split_join(init);
        assert(ls.last() == ls[ls.len() - 1]);
        lemma_split_after_dot(join_labels(init), ls.last());
        assert(init.push(ls.last()) =~= ls);
    }
}

proof fn lemma_parse_encoded(d: Seq<u8>, pos: int, ls: Seq<Seq<u8>>, j: nat)
    requires
        valid_labels(ls),
        0 <= pos,
        pos + encode_labels(ls).len() + 1 <= d.len(),
        d.subrange(pos, pos + encode_labels(ls).len() + 1) == encode_labels(ls) + seq![0u8],
    ensures
        labels_at(d, pos, j) == Some(ls),
        name_end(d, pos) == pos + encode_labels(ls).len() + 1,
    decreases ls.len(),
{
    let e = encode_labels(ls) + seq![0u8];
    if ls.len() == 0 {
        assert(d[pos] == e[0]);
        assert(ls =~= Seq::<Seq<u8>>::empty());
    } else {
        let l = ls[0];
        let rest = ls.drop_first();
        let n = l.len();
        assert(1 <= n <= 63);
        assert(d[pos] == e[0]);
        assert(e[0] == (n % 256) as u8);
        assert(d[pos] == n);
        assert(valid_labels(rest)) by {
            assert forall|i: int| 0 <= i < rest.len() implies 1 <= #[trigger] rest[i].len() <= 63
                && forall|k: int| 0 <= k < rest[i].len() ==> rest[i][k] != DOT by {
                assert(rest[i] == ls[i + 1]);
            }
        }
        let next = pos + 1 + n;
        assert(e =~= seq![(n % 256) as u8] + l + (encode_labels(rest) + seq![0u8]));
        assert(d.subrange(pos + 1, next) =~= l) by {
            assert forall|k: int| 0 <= k < n implies d.subrange(pos + 1, next)[k] == l[k] by {
                assert(d[pos + 1 + k] == e[1 + k]);
            }
        }
        assert(d.subrange(next, next + encode_labels(rest).len() + 1) =~= encode_labels(rest) + seq![0u8])
            by {
            assert forall|k: int| 0 <= k < encode_labels(rest).len() + 1 implies d.subrange(
                next,
                next + encode_labels(rest).len() + 1,
            )[k] == (encode_labels(rest) + seq![0u8])[k] by {
                assert(d[next + k] == e[1 + n + k]);
            }
        }
        lemma_parse_encoded(d, next, rest, j);
        assert(seq![l] + rest =~= ls);
    }
}

/// Parsing the wire form of a name gives the name back: for labels of one
/// to 63 bytes without dots, the encoding of their dotted form parses to
/// exactly those labels and ends at the end of the encoding.
pub proof fn lemma_name_round_trip(ls: Seq<Seq<u8>>)
    requires
        valid_labels(ls),
    ensures
        name_labels(encode_spec(join_labels(ls)), 0) == Some(ls),
        join_labels(ls) == join_labels(name_labels(encode_spec(join_labels(ls)), 0)->Some_0),
        name_end(encode_spec(join_labels(ls)), 0) == encode_spec(join_labels(ls)).len(),
{
    let e = encode_spec(join_labels(ls));
    if ls.len() == 0 {
        assert(join_labels(ls).len() == 0);
        assert(ls =~= Seq::<Seq<u8>>::empty());
    } else {
        lemma_split_join(ls);
        assert(ls[0].len() >= 1);
        assert(join_labels(ls).len() > 0) by {
            lemma_join_nonempty(ls);
        }
        assert(e.subrange(0, e.len() as int) =~= e);
        lemma_parse_encoded(e, 0, ls, MAX_JUMPS as nat);
    }
}

proof fn lemma_join_nonempty(ls: Seq<Seq<u8>>)
    requires
        ls.len() >= 1,
        ls[0].len() >= 1,
    ensures
        join_labels(ls).len() >= 1,
    decreases ls.len(),
{
    if ls.len() > 1 {
        assert(ls.drop_last()[0] == ls[0]);
        lemma_join_nonempty(ls.drop_last());
    }
}

/// Positions that are all compression pointers into one another.
pub open spec fn pointer_cycle(d: Seq<u8>, s: Set<int>) -> bool {
    forall|p: int|
        #![trigger s.contains(p)]
        s.contains(p) ==> 0 <= p && p + 1 < d.len() && is_pointer(d[p]) && s.contains(
            pointer_target(d, p),
        )
}

/// A name that enters a cycle of compression pointers is rejected once its
/// allowance of pointer jumps runs out, wherever in the cycle it starts.
pub proof fn lemma_pointer_cycle_rejected(d: Seq<u8>, s: Set<int>, p: int, jumps: nat)
    requires
        pointer_cycle(d, s),
        s.contains(p),
    ensures
        labels_at(d, p, jumps) is None,
    decreases jumps,
{
    if jumps > 0 {
        lemma_pointer_cycle_rejected(d, s, pointer_target(d, p), (jumps - 1) as nat);
    }
}

} // verus!
