//! The feature-annotation TXT record that a response may carry: which
//! resolver features a query went through, as ASCII text.
use vstd::prelude::*;
use vstd::string::*;
use crate::config::NekoCommentConfig;
use crate::name::{encode_name, encode_spec, extend_from_range};
use crate::text::{append_decimal, decimal_chars};
use crate::wire::{be16, be_bytes16, push_u16, push_u32, read_u16};

verus! {

/// The longest summary that is put into a record.
pub const MAX_SUMMARY_BYTES: usize = 500;

/// The largest character-string of a TXT record.
pub const TXT_CHUNK: usize = 255;

/// The record type of TXT.
pub const TYPE_TXT: u16 = 16;

/// Which features one query went through.
#[derive(Debug, Clone)]
pub struct QueryFeatures {
    pub cache_hit: bool,
    pub cache_miss: bool,
    pub ttl_alchemy: bool,
    pub recursive: bool,
    pub upstream_forward: bool,
    pub negative_cache_hit: bool,
    pub serve_stale: bool,
    pub prefetch_candidate: bool,
    pub curiosity_glue_hit: bool,
    pub journey_recorded: bool,
    pub parallel_dfs: bool,
    pub edns_detected: bool,
    pub chaos_triggered: bool,
    /// The upstream that won the race, in forwarding mode.
    pub upstream_winner: Option<String>,
    /// How long the query took, in milliseconds.
    pub latency_ms: Option<u64>,
}

/// Texts joined with `|`.
pub open spec fn joined(tags: Seq<Seq<char>>) -> Seq<char>
    decreases tags.len(),
{
    if tags.len() == 0 {
        Seq::empty()
    } else if tags.len() == 1 {
        tags[0]
    } else {
        joined(tags.drop_last()) + "|"@ + tags.last()
    }
}

/// `tags` with `tag` added when `on`.
#[verifier::opaque]
pub open spec fn with_tag(tags: Seq<Seq<char>>, on: bool, tag: Seq<char>) -> Seq<Seq<char>> {
    if on {
        tags.push(tag)
    } else {
        tags
    }
}

/// The tags of the features that were triggered, in a fixed order.
pub open spec fn feature_tags(f: QueryFeatures) -> Seq<Seq<char>> {
    let t0 = with_tag(Seq::empty(), f.cache_hit, "CACHE_HIT"@);
    let t1 = with_tag(t0, f.cache_miss, "CACHE_MISS"@);
    let t2 = with_tag(t1, f.recursive, "RECURSIVE"@);
    let t3 = with_tag(t2, f.parallel_dfs, "DFS_PARALLEL"@);
    let t4 = with_tag(t3, f.upstream_forward, "FORWARDED"@);
    let t5 = with_tag(t4, f.negative_cache_hit, "NEG_CACHE"@);
    let t6 = with_tag(t5, f.serve_stale, "SERVE_STALE"@);
    let t7 = with_tag(t6, f.ttl_alchemy, "TTL_ALCHEMY"@);
    let t8 = with_tag(t7, f.curiosity_glue_hit, "CURIOSITY_GLUE"@);
    let t9 = with_tag(t8, f.journey_recorded, "JOURNEY"@);
    let t10 = with_tag(t9, f.edns_detected, "EDNS"@);
    with_tag(t10, f.chaos_triggered, "CHAOS"@)
}

/// `neko-dns [TAGS]`, then ` via:NAME` and ` Nms` where known.
pub open spec fn summary_spec(f: QueryFeatures) -> Seq<char> {
    let head = "neko-dns ["@ + joined(feature_tags(f)) + "]"@;
    let via = match f.upstream_winner {
        Some(n) => head + " via:"@ + n@,
        None => head,
    };
    match f.latency_ms {
        Some(ms) => via + " "@ + decimal_chars(ms as nat) + "ms"@,
        None => via,
    }
}

fn add_tag(s: &mut String, count: &mut usize, Ghost(tags): Ghost<Seq<Seq<char>>>, on: bool, tag: &str)
    requires
        old(s)@ == joined(tags),
        *old(count) == tags.len(),
        tags.len() < 100,
    ensures
        final(s)@ == joined(with_tag(tags, on, tag@)),
        *final(count) == with_tag(tags, on, tag@).len(),
        *final(count) <= *old(count) + 1,
{
    reveal(with_tag);
    if on {
        let before = *count;
        *count = *count + 1;
        if before > 0 {
            s.append("|");
        } else {
            assert(tags =~= Seq::<Seq<char>>::empty());
        }
        s.append(tag);
        proof {
            assert(tags.push(tag@).drop_last() =~= tags);
            if tags.len() == 0 {
                assert(old(s)@ =~= Seq::<char>::empty());
                assert(final(s)@ =~= tag@);
            }
        }
    }
}

impl QueryFeatures {
    /// No feature triggered yet.
    pub fn new() -> (r: QueryFeatures)
        ensures
            !r.cache_hit && !r.cache_miss && !r.ttl_alchemy && !r.recursive && !r.upstream_forward
                && !r.negative_cache_hit && !r.serve_stale && !r.prefetch_candidate
                && !r.curiosity_glue_hit && !r.journey_recorded && !r.parallel_dfs && !r.edns_detected
                && !r.chaos_triggered && r.upstream_winner is None && r.latency_ms is None,
    {
        QueryFeatures {
            cache_hit: false,
            cache_miss: false,
            ttl_alchemy: false,
            recursive: false,
            upstream_forward: false,
            negative_cache_hit: false,
            serve_stale: false,
            prefetch_candidate: false,
            curiosity_glue_hit: false,
            journey_recorded: false,
            parallel_dfs: false,
            edns_detected: false,
            chaos_triggered: false,
            upstream_winner: None,
            latency_ms: None,
        }
    }

    /// The triggered feature tags joined with `|`.
    pub fn tag_text(&self) -> (r: String)
        ensures
            r@ == joined(feature_tags(*self)),
    {
        let mut tags = String::new();
        let mut count: usize = 0;
        let ghost t0 = Seq::<Seq<char>>::empty();
        add_tag(&mut tags, &mut count, Ghost(t0), self.cache_hit, "CACHE_HIT");
        let ghost t1 = with_tag(t0, self.cache_hit, "CACHE_HIT"@);
        add_tag(&mut tags, &mut count, Ghost(t1), self.cache_miss, "CACHE_MISS");
        let ghost t2 = with_tag(t1, self.cache_miss, "CACHE_MISS"@);
        add_tag(&mut tags, &mut count, Ghost(t2), self.recursive, "RECURSIVE");
        let ghost t3 = with_tag(t2, self.recursive, "RECURSIVE"@);
        add_tag(&mut tags, &mut count, Ghost(t3), self.parallel_dfs, "DFS_PARALLEL");
        let ghost t4 = with_tag(t3, self.parallel_dfs, "DFS_PARALLEL"@);
        add_tag(&mut tags, &mut count, Ghost(t4), self.upstream_forward, "FORWARDED");
        let ghost t5 = with_tag(t4, self.upstream_forward, "FORWARDED"@);
        add_tag(&mut tags, &mut count, Ghost(t5), self.negative_cache_hit, "NEG_CACHE");
        let ghost t6 = with_tag(t5, self.negative_cache_hit, "NEG_CACHE"@);
        add_tag(&mut tags, &mut count, Ghost(t6), self.serve_stale, "SERVE_STALE");
        let ghost t7 = with_tag(t6, self.serve_stale, "SERVE_STALE"@);
        add_tag(&mut tags, &mut count, Ghost(t7), self.ttl_alchemy, "TTL_ALCHEMY");
        let ghost t8 = with_tag(t7, self.ttl_alchemy, "TTL_ALCHEMY"@);
        add_tag(&mut tags, &mut count, Ghost(t8), self.curiosity_glue_hit, "CURIOSITY_GLUE");
        let ghost t9 = with_tag(t8, self.curiosity_glue_hit, "CURIOSITY_GLUE"@);
        add_tag(&mut tags, &mut count, Ghost(t9), self.journey_recorded, "JOURNEY");
        let ghost t10 = with_tag(t9, self.journey_recorded, "JOURNEY"@);
        add_tag(&mut tags, &mut count, Ghost(t10), self.edns_detected, "EDNS");
        let ghost t11 = with_tag(t10, self.edns_detected, "EDNS"@);
        add_tag(&mut tags, &mut count, Ghost(t11), self.chaos_triggered, "CHAOS");
        tags
    }

    /// A compact ASCII summary of the triggered features.
    pub fn to_summary(&self) -> (r: String)
        ensures
            r@ == summary_spec(*self),
    {
        let tags = self.tag_text();
        let mut out = String::from_str("neko-dns [");
        out.append(tags.as_str());
        out.append("]");
        match &self.upstream_winner {
            Some(name) => {
                out.append(" via:");
                out.append(name.as_str());
            },
            None => {},
        }
        match self.latency_ms {
            Some(ms) => {
                out.append(" ");
                append_decimal(&mut out, ms);
                out.append("ms");
            },
            None => {},
        }
        out
    }
}

/// The character-strings of a TXT rdata: the text in pieces of at most 255
/// bytes, each preceded by its length.
pub open spec fn txt_chunks(t: Seq<u8>) -> Seq<u8>
    decreases t.len(),
{
    if t.len() == 0 {
        Seq::empty()
    } else {
        let n = if t.len() < 255 {
            t.len() as int
        } else {
            255int
        };
        seq![n as u8] + t.take(n) + txt_chunks(t.skip(n))
    }
}

/// A TXT record with the given owner (wire form) and class, TTL 0, holding
/// `text` as character-strings.
pub open spec fn txt_record(owner: Seq<u8>, class: u16, text: Seq<u8>) -> Seq<u8> {
    let rdata = txt_chunks(text);
    owner + be_bytes16(TYPE_TXT) + be_bytes16(class) + seq![0u8, 0u8, 0u8, 0u8] + be_bytes16(
        (rdata.len() % 65536) as u16,
    ) + rdata
}

fn chunks(text: &[u8]) -> (r: Vec<u8>)
    ensures
        r@ == txt_chunks(text@),
{
    let mut out: Vec<u8> = Vec::new();
    let mut pos: usize = 0;
    assert(text@.skip(0) =~= text@);
    assert(out@ + txt_chunks(text@) =~= txt_chunks(text@));
    while pos < text.len()
        invariant
            pos <= text@.len(),
            out@ + txt_chunks(text@.skip(pos as int)) == txt_chunks(text@),
        decreases text@.len() - pos,
    {
        let rest = text.len() - pos;
        let n: usize = if rest < TXT_CHUNK {
            rest
        } else {
            TXT_CHUNK
        };
        let ghost t = text@.skip(pos as int);
        let ghost before = out@;
        out.push(n as u8);
        extend_from_range(&mut out, text, pos, pos + n);
        proof {
            assert(t.take(n as int) =~= text@.subrange(pos as int, pos + n));
            assert(t.skip(n as int) =~= text@.skip(pos + n));
            assert(out@ + txt_chunks(text@.skip(pos + n)) =~= before + txt_chunks(t));
        }
        pos = pos + n;
    }
    assert(text@.skip(pos as int) =~= Seq::<u8>::empty());
    assert(out@ + Seq::<u8>::empty() =~= out@);
    out
}

/// Builds a TXT record for `owner` (dotted) and `class` holding `text`.
pub fn build_txt_record(owner: &str, class: u16, text: &[u8]) -> (r: Vec<u8>)
    ensures
        r@ == txt_record(encode_spec(owner.spec_bytes()), class, text@),
{
    let mut record = encode_name(owner);
    push_u16(&mut record, TYPE_TXT);
    push_u16(&mut record, class);
    push_u32(&mut record, 0);
    let rdata = chunks(text);
    let rl = rdata.len();
    #[verifier::truncate]
    let rdlen = rl as u16;
    assert(rdlen == (rl % 65536) as u16) by (bit_vector)
        requires
            rdlen == #[verifier::truncate] (rl as u16),
    ;
    push_u16(&mut record, rdlen);
    extend_from_range(&mut record, rdata.as_slice(), 0, rdata.len());
    assert(rdata@.subrange(0, rdata@.len() as int) =~= rdata@);
    assert(record@ =~= txt_record(encode_spec(owner.spec_bytes()), class, text@));
    record
}

/// Adds annotation records to responses when enabled.
pub struct NekoComment {
    enabled: bool,
}

/// The owner name of the feature record.
pub open spec fn feature_owner() -> Seq<u8> {
    encode_spec("neko-dns.features".spec_bytes())
}

impl NekoComment {
    pub closed spec fn enabled_spec(&self) -> bool {
        self.enabled
    }

    pub fn new(config: &NekoCommentConfig) -> (r: NekoComment)
        ensures
            r.enabled_spec() == config.enabled,
    {
        NekoComment { enabled: config.enabled }
    }

    pub fn is_enabled(&self) -> (r: bool)
        ensures
            r == self.enabled_spec(),
    {
        self.enabled
    }

    /// The feature TXT record (`neko-dns.features.`, class IN, TTL 0)
    /// holding the summary; none when disabled or when the summary is over
    /// 500 bytes.
    pub fn build_feature_txt(&self, features: &QueryFeatures) -> (r: Option<Vec<u8>>)
        ensures
            !self.enabled_spec() ==> r is None,
            self.enabled_spec() ==> ({
                let text = vstd::utf8::encode_utf8(summary_spec(*features));
                if text.len() > MAX_SUMMARY_BYTES {
                    r is None
                } else {
                    r matches Some(v) && v@ == txt_record(feature_owner(), 1, text)
                }
            }),
    {
        if !self.enabled {
            return None;
        }
        let summary = features.to_summary();
        let bytes = summary.as_str().as_bytes();
        if bytes.len() > MAX_SUMMARY_BYTES {
            return None;
        }
        Some(build_txt_record("neko-dns.features", 1, bytes))
    }
}

/// `response` with `record` appended and ARCOUNT (bytes 10–11) one
/// higher, wrapping at 65536.
pub open spec fn with_additional(response: Seq<u8>, record: Seq<u8>) -> Seq<u8> {
    let n = ((be16(response, 10) + 1) % 65536) as u16;
    response.update(10, (n / 256) as u8).update(11, (n % 256) as u8) + record
}

/// Appends the feature TXT record to a response, when there is one, and
/// counts it in ARCOUNT; a response shorter than a header is left alone.
pub fn append_feature_record(response: &mut Vec<u8>, neko: &NekoComment, features: &QueryFeatures)
    ensures
        old(response)@.len() < 12 ==> final(response)@ == old(response)@,
        old(response)@.len() >= 12 ==> ({
            let text = vstd::utf8::encode_utf8(summary_spec(*features));
            if !neko.enabled_spec() || text.len() > MAX_SUMMARY_BYTES {
                final(response)@ == old(response)@
            } else {
                final(response)@ == with_additional(old(response)@, txt_record(feature_owner(), 1, text))
            }
        }),
{
    if response.len() < 12 {
        return;
    }
    match neko.build_feature_txt(features) {
        Some(txt) => {
            let ar = read_u16(response.as_slice(), 10);
            let n: u16 = if ar == u16::MAX {
                0
            } else {
                ar + 1
            };
            response.set(10, (n / 256) as u8);
            response.set(11, (n % 256) as u8);
            extend_from_range(response, txt.as_slice(), 0, txt.len());
            assert(txt@.subrange(0, txt@.len() as int) =~= txt@);
        },
        None => {},
    }
}

} // verus!
