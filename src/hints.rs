//! The root hints file: one record per line, `;` comments, whitespace
//! separated `<owner> <ttl> <type> <rdata>` fields. NS records of the root
//! name the root servers; A records give their addresses.
use vstd::prelude::*;
use vstd::string::*;
use crate::text::{ascii_lower, text_from_bytes};
use crate::name::extend_from_range;

verus! {

/// A root server: its name and, once known, its IPv4 address.
#[derive(Debug, Clone)]
pub struct RootServer {
    pub name: String,
    pub ipv4: Option<u32>,
}

/// Why a hints file gave no root servers.
#[derive(Debug, Clone, Copy, PartialEq, Eq, Structural)]
pub enum HintsError {
    NoRootServers,
}

/// A byte that separates fields.
pub open spec fn is_space(b: u8) -> bool {
    b == 32 || b == 9 || b == 13 || b == 11 || b == 12
}

/// `b` cut at every `sep`; text without `sep` is one piece.
pub open spec fn split_on(b: Seq<u8>, sep: u8) -> Seq<Seq<u8>>
    decreases b.len(),
{
    if b.len() == 0 {
        seq![Seq::empty()]
    } else if b.last() == sep {
        split_on(b.drop_last(), sep).push(Seq::empty())
    } else {
        let s = split_on(b.drop_last(), sep);
        s.update(s.len() - 1, s.last().push(b.last()))
    }
}

/// The fields of a line: its maximal runs of non-space bytes.
pub open spec fn fields_of(line: Seq<u8>) -> Seq<Seq<u8>>
    decreases line.len(),
{
    if line.len() == 0 {
        Seq::empty()
    } else {
        let prev = fields_of(line.drop_last());
        let c = line.last();
        if is_space(c) {
            prev
        } else if line.len() >= 2 && !is_space(line[line.len() - 2]) && prev.len() > 0 {
            prev.update(prev.len() - 1, prev.last().push(c))
        } else {
            prev.push(seq![c])
        }
    }
}

/// A byte in lower case.
pub open spec fn lower_byte(b: u8) -> u8 {
    if 65 <= b <= 90 {
        (b + 32) as u8
    } else {
        b
    }
}

/// Two fields equal without regard to ASCII case.
pub open spec fn eq_ignore_case(a: Seq<u8>, b: Seq<u8>) -> bool {
    a.len() == b.len() && forall|i: int| 0 <= i < a.len() ==> lower_byte(a[i]) == lower_byte(b[i])
}

/// `b` without trailing dots, in lower case.
pub open spec fn host_key(b: Seq<u8>) -> Seq<u8>
    decreases b.len(),
{
    if b.len() > 0 && b.last() == 46 {
        host_key(b.drop_last())
    } else {
        b.map_values(|x: u8| lower_byte(x))
    }
}

/// The value of a decimal octet of one to three digits, at most 255.
pub open spec fn octet_value(f: Seq<u8>) -> Option<int>
    decreases f.len(),
{
    if f.len() == 0 || f.len() > 3 || exists|i: int| 0 <= i < f.len() && !(48 <= #[trigger] f[i] <= 57) {
        None
    } else if f.len() > 1 && f[0] == 48 {
        None
    } else if f.len() == 1 {
        Some(f[0] - 48)
    } else {
        match octet_value(f.drop_last()) {
            Some(v) => if v * 10 + (f.last() - 48) <= 255 {
                Some(v * 10 + (f.last() - 48))
            } else {
                None
            },
            None => None,
        }
    }
}

/// The address that a dotted quad denotes, as a big-endian integer.
pub open spec fn ipv4_value(f: Seq<u8>) -> Option<u32> {
    let parts = split_on(f, 46);
    if parts.len() != 4 {
        None
    } else {
        match (octet_value(parts[0]), octet_value(parts[1]), octet_value(parts[2]), octet_value(parts[3])) {
            (Some(a), Some(b), Some(c), Some(d)) => Some((((a * 256 + b) * 256 + c) * 256 + d) as u32),
            _ => None,
        }
    }
}

/// The abstract form of the servers found so far.
pub struct Hint {
    pub name: Seq<u8>,
    pub ipv4: Option<u32>,
}

/// Whether the hints hold a server of that name.
pub open spec fn has_server(hs: Seq<Hint>, name: Seq<u8>) -> bool {
    exists|i: int| 0 <= i < hs.len() && (#[trigger] hs[i]).name == name
}

/// The servers after one line: an NS record of the root adds its target if
/// new; an A record with a valid address sets the address of a known server.
pub open spec fn apply_line(hs: Seq<Hint>, line: Seq<u8>) -> Seq<Hint> {
    let f = fields_of(line);
    if f.len() < 4 || f[0][0] == 59 {
        hs
    } else if eq_ignore_case(f[2], seq![78u8, 83u8]) && f[0] == seq![46u8] {
        let n = host_key(f[3]);
        if has_server(hs, n) {
            hs
        } else {
            hs.push(Hint { name: n, ipv4: None })
        }
    } else if eq_ignore_case(f[2], seq![65u8]) {
        match ipv4_value(f[3]) {
            Some(ip) => hs.map_values(|h: Hint| if h.name == host_key(f[0]) {
                Hint { name: h.name, ipv4: Some(ip) }
            } else {
                h
            }),
            None => hs,
        }
    } else {
        hs
    }
}

/// The servers after a sequence of lines.
pub open spec fn apply_lines(lines: Seq<Seq<u8>>) -> Seq<Hint>
    decreases lines.len(),
{
    if lines.len() == 0 {
        Seq::empty()
    } else {
        apply_line(apply_lines(lines.drop_last()), lines.last())
    }
}

fn split_bytes(b: &[u8], sep: u8) -> (r: Vec<Vec<u8>>)
    ensures
        r@.len() == split_on(b@, sep).len(),
        forall|i: int| 0 <= i < r@.len() ==> (#[trigger] r@[i])@ == split_on(b@, sep)[i],
{
    let mut out: Vec<Vec<u8>> = Vec::new();
    let mut cur: Vec<u8> = Vec::new();
    let mut i: usize = 0;
    assert(b@.subrange(0, 0) =~= Seq::<u8>::empty());
    while i < b.len()
        invariant
            i <= b@.len(),
            split_on(b@.subrange(0, i as int), sep).len() == out@.len() + 1,
            forall|j: int| 0 <= j < out@.len() ==> (#[trigger] out@[j])@ == split_on(b@.subrange(0, i as int), sep)[j],
            cur@ == split_on(b@.subrange(0, i as int), sep).last(),
        decreases b@.len() - i,
    {
        assert(b@.subrange(0, i + 1).drop_last() =~= b@.subrange(0, i as int));
        let ghost old_out = out@;
        if b[i] == sep {
            let mut done: Vec<u8> = Vec::new();
            std::mem::swap(&mut done, &mut cur);
            out.push(done);
            proof {
                assert forall|j: int| 0 <= j < out@.len() implies (#[trigger] out@[j])@ == split_on(b@.subrange(0, i + 1), sep)[j] by {
                    if j < old_out.len() {
                        assert(out@[j] == old_out[j]);
                    }
                }
            }
        } else {
            cur.push(b[i]);
        }
        i = i + 1;
    }
    let ghost old_out = out@;
    out.push(cur);
    proof {
        assert(b@.subrange(0, i as int) =~= b@);
        assert forall|j: int| 0 <= j < out@.len() implies (#[trigger] out@[j])@ == split_on(b@, sep)[j] by {
            if j < old_out.len() {
                assert(out@[j] == old_out[j]);
            }
        }
    }
    out
}

fn space(c: u8) -> (r: bool)
    ensures
        r == is_space(c),
{
    c == 32 || c == 9 || c == 13 || c == 11 || c == 12
}

fn fields(line: &Vec<u8>) -> (r: Vec<Vec<u8>>)
    ensures
        r@.len() == fields_of(line@).len(),
        forall|i: int| 0 <= i < r@.len() ==> (#[trigger] r@[i])@ == fields_of(line@)[i],
{
    let mut out: Vec<Vec<u8>> = Vec::new();
    let mut i: usize = 0;
    assert(line@.subrange(0, 0) =~= Seq::<u8>::empty());
    while i < line.len()
        invariant
            i <= line@.len(),
            out@.len() == fields_of(line@.subrange(0, i as int)).len(),
            forall|j: int| 0 <= j < out@.len() ==> (#[trigger] out@[j])@ == fields_of(line@.subrange(0, i as int))[j],
        decreases line@.len() - i,
    {
        let ghost pre = line@.subrange(0, i + 1);
        assert(pre.drop_last() =~= line@.subrange(0, i as int));
        let c = line[i];
        let ghost old_out = out@;
        if space(c) {
        } else if i >= 1 && !space(line[i - 1]) && out.len() > 0 {
            assert(pre[pre.len() - 2] == line@[i - 1]);
            let k = out.len() - 1;
            let mut last = out.remove(k);
            last.push(c);
            out.push(last);
            proof {
                assert forall|j: int| 0 <= j < out@.len() implies (#[trigger] out@[j])@ == fields_of(pre)[j] by {
                    if j < k {
                        assert(out@[j] == old_out[j]);
                    }
                }
            }
        } else {
            proof {
                if i >= 1 {
                    assert(pre[pre.len() - 2] == line@[i - 1]);
                }
            }
            let mut f: Vec<u8> = Vec::new();
            f.push(c);
            out.push(f);
            proof {
                assert(f@ =~= seq![c]);
                assert forall|j: int| 0 <= j < out@.len() implies (#[trigger] out@[j])@ == fields_of(pre)[j] by {
                    if j < old_out.len() {
                        assert(out@[j] == old_out[j]);
                    }
                }
            }
        }
        i = i + 1;
    }
    assert(line@.subrange(0, i as int) =~= line@);
    out
}

fn lower(c: u8) -> (r: u8)
    ensures
        r == lower_byte(c),
{
    if c >= 65 && c <= 90 {
        c + 32
    } else {
        c
    }
}

fn same_ignore_case(a: &Vec<u8>, b: &[u8]) -> (r: bool)
    ensures
        r == eq_ignore_case(a@, b@),
{
    if a.len() != b.len() {
        return false;
    }
    let mut i: usize = 0;
    while i < a.len()
        invariant
            a@.len() == b@.len(),
            i <= a@.len(),
            forall|j: int| 0 <= j < i ==> lower_byte(a@[j]) == lower_byte(b@[j]),
        decreases a@.len() - i,
    {
        if lower(a[i]) != lower(b[i]) {
            return false;
        }
        i = i + 1;
    }
    true
}

fn host(b: &Vec<u8>) -> (r: Vec<u8>)
    ensures
        r@ == host_key(b@),
{
    let mut k = b.len();
    assert(b@.subrange(0, k as int) =~= b@);
    while k > 0 && b[k - 1] == 46
        invariant
            k <= b@.len(),
            host_key(b@) == host_key(b@.subrange(0, k as int)),
        decreases k,
    {
        assert(b@.subrange(0, k as int).drop_last() =~= b@.subrange(0, k - 1));
        k = k - 1;
    }
    let mut out: Vec<u8> = Vec::new();
    let mut i: usize = 0;
    while i < k
        invariant
            k <= b@.len(),
            i <= k,
            out@ == b@.subrange(0, i as int).map_values(|x: u8| lower_byte(x)),
        decreases k - i,
    {
        out.push(lower(b[i]));
        assert(b@.subrange(0, i + 1).map_values(|x: u8| lower_byte(x)) =~= b@.subrange(0, i as int).map_values(
            |x: u8| lower_byte(x),
        ).push(lower_byte(b@[i as int])));
        i = i + 1;
    }
    out
}

fn octet(f: &Vec<u8>) -> (r: Option<u32>)
    ensures
        match octet_value(f@) {
            Some(v) => 0 <= v <= 255 && r == Some(v as u32),
            None => r is None,
        },
{
    if f.len() == 0 || f.len() > 3 {
        return None;
    }
    let mut i: usize = 0;
    while i < f.len()
        invariant
            i <= f@.len(),
            forall|j: int| 0 <= j < i ==> 48 <= #[trigger] f@[j] <= 57,
        decreases f@.len() - i,
    {
        if f[i] < 48 || f[i] > 57 {
            return None;
        }
        i = i + 1;
    }
    if f.len() > 1 && f[0] == 48 {
        return None;
    }
    let d0 = (f[0] - 48) as u32;
    if f.len() == 1 {
        return Some(d0);
    }
    let ghost f1 = f@.take(2);
    assert(f1.drop_last() =~= f@.take(1));
    assert(octet_value(f@.take(1)) == Some(d0 as int));
    let v1 = d0 * 10 + (f[1] - 48) as u32;
    if f.len() == 2 {
        assert(f1 =~= f@);
        return if v1 <= 255 {
            Some(v1)
        } else {
            None
        };
    }
    assert(f@.drop_last() =~= f1);
    if v1 > 255 {
        assert(octet_value(f1) is None);
        return None;
    }
    assert(octet_value(f1) == Some(v1 as int));
    let v2 = v1 * 10 + (f[2] - 48) as u32;
    if v2 <= 255 {
        Some(v2)
    } else {
        None
    }
}

fn ipv4(f: &Vec<u8>) -> (r: Option<u32>)
    ensures
        r == ipv4_value(f@),
{
    let parts = split_bytes(f.as_slice(), 46);
    if parts.len() != 4 {
        return None;
    }
    let ghost sp = split_on(f@, 46);
    assert(parts@[0]@ == sp[0] && parts@[1]@ == sp[1] && parts@[2]@ == sp[2] && parts@[3]@ == sp[3]);
    let a = octet(&parts[0]);
    let b = octet(&parts[1]);
    let c = octet(&parts[2]);
    let d = octet(&parts[3]);
    match (a, b, c, d) {
        (Some(a), Some(b), Some(c), Some(d)) => Some(((a * 256 + b) * 256 + c) * 256 + d),
        _ => None,
    }
}

/// The abstract form of a server being collected.
pub open spec fn hint_of(p: (Vec<u8>, Option<u32>)) -> Hint {
    Hint { name: p.0@, ipv4: p.1 }
}

/// The servers that have an address, in order.
pub open spec fn with_address(hs: Seq<Hint>) -> Seq<Hint>
    decreases hs.len(),
{
    if hs.len() == 0 {
        Seq::empty()
    } else {
        let prev = with_address(hs.drop_last());
        if hs.last().ipv4 is Some {
            prev.push(hs.last())
        } else {
            prev
        }
    }
}

/// The servers that a hints file yields.
pub open spec fn root_hints_spec(content: Seq<u8>) -> Seq<Hint> {
    with_address(apply_lines(split_on(content, 10)))
}

fn eq_bytes(a: &Vec<u8>, b: &Vec<u8>) -> (r: bool)
    ensures
        r == (a@ == b@),
{
    if a.len() != b.len() {
        return false;
    }
    let mut i: usize = 0;
    while i < a.len()
        invariant
            a@.len() == b@.len(),
            i <= a@.len(),
            forall|j: int| 0 <= j < i ==> a@[j] == b@[j],
        decreases a@.len() - i,
    {
        if a[i] != b[i] {
            return false;
        }
        i = i + 1;
    }
    assert(a@ =~= b@);
    true
}

#[verifier::loop_isolation(false)]
fn apply(hs: &mut Vec<(Vec<u8>, Option<u32>)>, line: &Vec<u8>)
    ensures
        final(hs)@.map_values(|p: (Vec<u8>, Option<u32>)| hint_of(p)) == apply_line(
            old(hs)@.map_values(|p: (Vec<u8>, Option<u32>)| hint_of(p)),
            line@,
        ),
{
    let ghost before = old(hs)@.map_values(|p: (Vec<u8>, Option<u32>)| hint_of(p));
    let f = fields(line);
    if f.len() < 4 {
        return;
    }
    assert(f@[0]@ == fields_of(line@)[0]);
    assert(f@[2]@ == fields_of(line@)[2]);
    assert(f@[3]@ == fields_of(line@)[3]);
    if f[0].len() > 0 && f[0][0] == 59 {
        return;
    }
    proof {
        lemma_fields_nonempty(line@);
    }
    let ns: [u8; 2] = [78, 83];
    let a: [u8; 1] = [65];
    let root: Vec<u8> = vec![46u8];
    assert(ns@ =~= seq![78u8, 83u8]);
    assert(a@ =~= seq![65u8]);
    assert(root@ =~= seq![46u8]);
    if same_ignore_case(&f[2], ns.as_slice()) && eq_bytes(&f[0], &root) {
        let n = host(&f[3]);
        let mut i: usize = 0;
        while i < hs.len()
            invariant
                i <= hs@.len(),
                hs@ == old(hs)@,
                forall|j: int| 0 <= j < i ==> (#[trigger] hs@[j]).0@ != n@,
            decreases hs@.len() - i,
        {
            if eq_bytes(&hs[i].0, &n) {
                proof {
                    assert(before[i as int].name == n@);
                }
                return;
            }
            i = i + 1;
        }
        proof {
            assert forall|j: int| 0 <= j < before.len() implies (#[trigger] before[j]).name != n@ by {
                assert(before[j].name == hs@[j].0@);
            }
        }
        hs.push((n, None));
        proof {
            assert(hs@.map_values(|p: (Vec<u8>, Option<u32>)| hint_of(p)) =~= before.push(Hint { name: host_key(f@[3]@), ipv4: None }));
        }
    } else if same_ignore_case(&f[2], a.as_slice()) {
        match ipv4(&f[3]) {
            Some(ip) => {
                let owner = host(&f[0]);
                let mut i: usize = 0;
                while i < hs.len()
                    invariant
                        i <= hs@.len(),
                        hs@.len() == old(hs)@.len(),
                        owner@ == host_key(f@[0]@),
                        forall|j: int|
                            0 <= j < hs@.len() ==> (#[trigger] hs@[j]).0@ == old(hs)@[j].0@,
                        forall|j: int|
                            0 <= j < i ==> (#[trigger] hs@[j]).1 == if old(hs)@[j].0@ == owner@ {
                                Some(ip)
                            } else {
                                old(hs)@[j].1
                            },
                        forall|j: int| i <= j < hs@.len() ==> (#[trigger] hs@[j]).1 == old(hs)@[j].1,
                    decreases hs@.len() - i,
                {
                    if eq_bytes(&hs[i].0, &owner) {
                        let (name, _) = hs.remove(i);
                        hs.insert(i, (name, Some(ip)));
                    }
                    i = i + 1;
                }
                proof {
                    let after = hs@.map_values(|p: (Vec<u8>, Option<u32>)| hint_of(p));
                    let expect = before.map_values(|h: Hint| if h.name == host_key(f@[0]@) {
                        Hint { name: h.name, ipv4: Some(ip) }
                    } else {
                        h
                    });
                    assert(after =~= expect);
                }
            },
            None => {},
        }
    }
}

proof fn lemma_fields_nonempty(line: Seq<u8>)
    ensures
        forall|i: int| 0 <= i < fields_of(line).len() ==> (#[trigger] fields_of(line)[i]).len() > 0,
    decreases line.len(),
{
    if line.len() > 0 {
        lemma_fields_nonempty(line.drop_last());
        let prev = fields_of(line.drop_last());
        let c = line.last();
        let cur = fields_of(line);
        assert forall|i: int| 0 <= i < cur.len() implies (#[trigger] cur[i]).len() > 0 by {
            if !is_space(c) && line.len() >= 2 && !is_space(line[line.len() - 2]) && prev.len() > 0 {
                if i < prev.len() - 1 {
                    assert(cur[i] == prev[i]);
                } else {
                    assert(cur[i] == prev.last().push(c));
                }
            } else if !is_space(c) {
                if i < prev.len() {
                    assert(cur[i] == prev[i]);
                } else {
                    assert(cur[i] == seq![c]);
                }
            } else {
                assert(cur[i] == prev[i]);
            }
        }
    }
}

/// Reads the root servers from the text of a hints file: those named by NS
/// records of the root that an A record gives an address, in the order of
/// their NS records. A file that yields none is an error.
pub fn parse_root_hints(content: &str) -> (r: Result<Vec<RootServer>, HintsError>)
    ensures
        root_hints_spec(content.spec_bytes()).len() == 0 ==> r == Err::<Vec<RootServer>, HintsError>(HintsError::NoRootServers),
        root_hints_spec(content.spec_bytes()).len() > 0 ==> (r matches Ok(v) && v@.len()
            == root_hints_spec(content.spec_bytes()).len() && forall|i: int|
            0 <= i < v@.len() ==> (#[trigger] v@[i]).name@ == crate::text::lossy_text(
                root_hints_spec(content.spec_bytes())[i].name,
            ) && v@[i].ipv4 == root_hints_spec(content.spec_bytes())[i].ipv4),
{
    let bytes = content.as_bytes();
    let lines = split_bytes(bytes, 10);
    let ghost ls = split_on(bytes@, 10);
    let mut hs: Vec<(Vec<u8>, Option<u32>)> = Vec::new();
    let mut k: usize = 0;
    assert(ls.take(0) =~= Seq::<Seq<u8>>::empty());
    assert(hs@.map_values(|p: (Vec<u8>, Option<u32>)| hint_of(p)) =~= Seq::<Hint>::empty());
    while k < lines.len()
        invariant
            lines@.len() == ls.len(),
            forall|i: int| 0 <= i < lines@.len() ==> (#[trigger] lines@[i])@ == ls[i],
            k <= lines@.len(),
            hs@.map_values(|p: (Vec<u8>, Option<u32>)| hint_of(p)) == apply_lines(ls.take(k as int)),
        decreases lines@.len() - k,
    {
        assert(ls.take(k + 1).drop_last() =~= ls.take(k as int));
        assert(lines@[k as int]@ == ls[k as int]);
        apply(&mut hs, &lines[k]);
        k = k + 1;
    }
    assert(ls.take(k as int) =~= ls);
    let ghost all = apply_lines(ls);
    let mut out: Vec<RootServer> = Vec::new();
    let mut i: usize = 0;
    assert(all.take(0) =~= Seq::<Hint>::empty());
    while i < hs.len()
        invariant
            i <= hs@.len(),
            hs@.map_values(|p: (Vec<u8>, Option<u32>)| hint_of(p)) == all,
            out@.len() == with_address(all.take(i as int)).len(),
            forall|j: int|
                0 <= j < out@.len() ==> (#[trigger] out@[j]).name@ == crate::text::lossy_text(
                    with_address(all.take(i as int))[j].name,
                ) && out@[j].ipv4 == with_address(all.take(i as int))[j].ipv4,
        decreases hs@.len() - i,
    {
        assert(all.take(i + 1).drop_last() =~= all.take(i as int));
        assert(all[i as int] == hint_of(hs@[i as int]));
        let ghost old_out = out@;
        if hs[i].1.is_some() {
            out.push(RootServer { name: text_from_bytes(hs[i].0.as_slice()), ipv4: hs[i].1 });
            proof {
                assert forall|j: int|
                    0 <= j < out@.len() implies (#[trigger] out@[j]).name@ == crate::text::lossy_text(
                    with_address(all.take(i + 1))[j].name,
                ) && out@[j].ipv4 == with_address(all.take(i + 1))[j].ipv4 by {
                    if j < old_out.len() {
                        assert(out@[j] == old_out[j]);
                    }
                }
            }
        }
        i = i + 1;
    }
    assert(all.take(i as int) =~= all);
    if out.len() == 0 {
        return Err(HintsError::NoRootServers);
    }
    Ok(out)
}

/// The port-53 addresses of the root servers.
pub fn root_addresses(servers: &Vec<RootServer>) -> (r: Vec<crate::infra::ServerAddr>)
    ensures
        r@ == root_addrs_spec(servers@),
{
    let mut out: Vec<crate::infra::ServerAddr> = Vec::new();
    let mut i: usize = 0;
    while i < servers.len()
        invariant
            i <= servers@.len(),
            out@ == root_addrs_spec(servers@.take(i as int)),
        decreases servers@.len() - i,
    {
        assert(servers@.take(i + 1).drop_last() =~= servers@.take(i as int));
        match servers[i].ipv4 {
            Some(ip) => out.push(crate::infra::ServerAddr { ip, port: 53 }),
            None => {},
        }
        i = i + 1;
    }
    assert(servers@.take(i as int) =~= servers@);
    out
}

/// The port-53 address of each server that has one, in order.
pub open spec fn root_addrs_spec(s: Seq<RootServer>) -> Seq<crate::infra::ServerAddr>
    decreases s.len(),
{
    if s.len() == 0 {
        Seq::empty()
    } else {
        let prev = root_addrs_spec(s.drop_last());
        match s.last().ipv4 {
            Some(ip) => prev.push(crate::infra::ServerAddr { ip, port: 53 }),
            None => prev,
        }
    }
}

} // verus!
