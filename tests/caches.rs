use neko_dns::alchemy::TtlAlchemy;
use neko_dns::cache::{extract_min_ttl, hash_rdata, CacheLayer};
use neko_dns::config::{CacheConfig, NegativeCacheConfig};
use neko_dns::name::encode_name;
use neko_dns::negative::{extract_neg_ttl, generate_typo_variants, NegativeCache};
use neko_dns::types::RecordType;
use neko_dns::wire::build_query;

fn record(out: &mut Vec<u8>, name: &str, rtype: u16, ttl: u32, rdata: &[u8]) {
    out.extend_from_slice(&encode_name(name));
    out.extend_from_slice(&rtype.to_be_bytes());
    out.extend_from_slice(&1u16.to_be_bytes());
    out.extend_from_slice(&ttl.to_be_bytes());
    out.extend_from_slice(&(rdata.len() as u16).to_be_bytes());
    out.extend_from_slice(rdata);
}

fn a_response(name: &str, ttl: u32, ip: [u8; 4]) -> Vec<u8> {
    let mut p = build_query(1, name, RecordType::A, true);
    p[2] = 0x81;
    p[3] = 0x80;
    p[7] = 1;
    record(&mut p, name, 1, ttl, &ip);
    p
}

fn nxdomain(name: &str, soa_ttl: u32, minimum: u32) -> Vec<u8> {
    let mut p = build_query(1, name, RecordType::A, true);
    p[2] = 0x81;
    p[3] = 0x83;
    p[9] = 1;
    let mut rdata = encode_name("ns.com");
    rdata.extend_from_slice(&encode_name("admin.com"));
    for v in [1u32, 7200, 900, 1209600] {
        rdata.extend_from_slice(&v.to_be_bytes());
    }
    rdata.extend_from_slice(&minimum.to_be_bytes());
    record(&mut p, "com", 6, soa_ttl, &rdata);
    p
}

fn keep(o: u32, _h: u64, _c: u32) -> u64 {
    o as u64
}

fn layer(max_entries: usize, serve_stale: bool) -> CacheLayer {
    CacheLayer::new(
        &CacheConfig { max_entries, serve_stale, stale_ttl_secs: 100 },
        TtlAlchemy::new(true, 30, 86400),
    )
}

#[test]
fn fresh_hit_returns_remaining_ttl() {
    let mut c = layer(10, false);
    c.insert("example.com", &RecordType::A, &a_response("example.com", 300, [1, 2, 3, 4]), "up1", 1000, keep);
    let hit = c.get("EXAMPLE.com", &RecordType::A, 1100).unwrap();
    assert_eq!(hit.remaining_ttl, 200);
    assert_eq!(hit.upstream_name, "up1");
    assert!(c.get("example.com", &RecordType::AAAA, 1100).is_none());
    assert_eq!(c.counters(), (1, 1, 0));
}

#[test]
fn stale_hit_has_ttl_one_and_marked_source() {
    let mut c = layer(10, true);
    c.insert("example.com", &RecordType::A, &a_response("example.com", 60, [1, 2, 3, 4]), "up1", 0, keep);
    let hit = c.get("example.com", &RecordType::A, 120).unwrap();
    assert_eq!(hit.remaining_ttl, 1);
    assert_eq!(hit.upstream_name, "up1 (stale)");
    assert!(c.get("example.com", &RecordType::A, 60 + 100).is_none());
}

#[test]
fn expired_without_serve_stale_is_a_miss() {
    let mut c = layer(10, false);
    c.insert("example.com", &RecordType::A, &a_response("example.com", 60, [1, 2, 3, 4]), "up1", 0, keep);
    assert!(c.get("example.com", &RecordType::A, 60).is_none());
}

#[test]
fn hit_then_identical_insert_keeps_counters() {
    let mut c = layer(10, false);
    let resp = a_response("example.com", 300, [1, 2, 3, 4]);
    c.insert("example.com", &RecordType::A, &resp, "up1", 0, keep);
    assert!(c.get("example.com", &RecordType::A, 10).is_some());
    c.record_hit("example.com", &RecordType::A);
    c.record_hit("example.com", &RecordType::A);
    assert_eq!(c.entry_stats("example.com", &RecordType::A), Some((2, 0, 300)));
    c.insert("example.com", &RecordType::A, &resp, "up1", 20, keep);
    assert_eq!(c.entry_stats("example.com", &RecordType::A), Some((2, 0, 300)));
    c.insert("example.com", &RecordType::A, &a_response("example.com", 300, [5, 6, 7, 8]), "up1", 30, keep);
    assert_eq!(c.entry_stats("example.com", &RecordType::A), Some((2, 1, 300)));
}

#[test]
fn alchemist_sees_hits_and_changes() {
    let mut c = layer(10, false);
    let resp = a_response("a.com", 300, [1, 1, 1, 1]);
    c.insert("a.com", &RecordType::A, &resp, "u", 0, |o, h, ch| o as u64 + 100 * h - 10 * ch as u64);
    c.record_hit("a.com", &RecordType::A);
    c.insert("a.com", &RecordType::A, &a_response("a.com", 300, [2, 2, 2, 2]), "u", 0, |o, h, ch| {
        o as u64 + 100 * h - 10 * ch as u64
    });
    assert_eq!(c.entry_stats("a.com", &RecordType::A), Some((1, 1, 390)));
}

#[test]
fn eviction_removes_lowest_score() {
    let mut c = layer(2, false);
    c.insert("a.com", &RecordType::A, &a_response("a.com", 300, [1, 1, 1, 1]), "u", 0, keep);
    c.insert("b.com", &RecordType::A, &a_response("b.com", 300, [2, 2, 2, 2]), "u", 0, keep);
    c.record_hit("a.com", &RecordType::A);
    c.insert("c.com", &RecordType::A, &a_response("c.com", 300, [3, 3, 3, 3]), "u", 10, keep);
    assert_eq!(c.len(), 2);
    assert!(c.entry_stats("b.com", &RecordType::A).is_none());
    assert!(c.entry_stats("a.com", &RecordType::A).is_some());
    assert_eq!(c.counters().2, 1);
}

#[test]
fn prefetch_candidates_are_near_expiry() {
    let mut c = layer(10, false);
    c.insert("a.com", &RecordType::A, &a_response("a.com", 100, [1, 1, 1, 1]), "u", 0, keep);
    c.insert("b.com", &RecordType::A, &a_response("b.com", 1000, [1, 1, 1, 1]), "u", 0, keep);
    let cands = c.get_prefetch_candidates(95, 1, 10);
    assert_eq!(cands, vec![("a.com".to_string(), RecordType::A)]);
    assert!(c.get_prefetch_candidates(100, 1, 10).iter().all(|(n, _)| n != "a.com"));
}

#[test]
fn min_ttl_and_default() {
    let mut p = a_response("x.com", 500, [1, 1, 1, 1]);
    p[7] = 2;
    record(&mut p, "x.com", 1, 200, &[2, 2, 2, 2]);
    assert_eq!(extract_min_ttl(&p), Some(200));
    assert_eq!(extract_min_ttl(&build_query(1, "x.com", RecordType::A, true)), None);
    let mut c = layer(10, false);
    c.insert("x.com", &RecordType::A, &build_query(1, "x.com", RecordType::A, true), "u", 0, keep);
    assert_eq!(c.entry_stats("x.com", &RecordType::A), Some((0, 0, 300)));
}

#[test]
fn rdata_hash_depends_on_answer_rdata_only() {
    let a = a_response("x.com", 5, [1, 2, 3, 4]);
    let b = a_response("x.com", 900, [1, 2, 3, 4]);
    let c = a_response("x.com", 5, [4, 3, 2, 1]);
    assert_eq!(hash_rdata(&a), hash_rdata(&b));
    assert_ne!(hash_rdata(&a), hash_rdata(&c));
}

fn neg(speculative: bool) -> NegativeCache {
    NegativeCache::new(&NegativeCacheConfig { enabled: true, speculative, default_ttl: 300 })
}

#[test]
fn negative_ttl_is_soa_minimum_capped_by_soa_ttl() {
    assert_eq!(extract_neg_ttl(&nxdomain("gogle.com", 900, 60)), Some(60));
    assert_eq!(extract_neg_ttl(&nxdomain("gogle.com", 30, 60)), Some(30));
    assert_eq!(extract_neg_ttl(&a_response("x.com", 5, [1, 1, 1, 1])), None);
}

#[test]
fn negative_entry_expires_lazily() {
    let mut n = neg(false);
    let r = nxdomain("gogle.com", 900, 60);
    n.insert("gogle.com", &RecordType::A, &r, 0);
    assert_eq!(n.check("GOGLE.com", &RecordType::A, 59), Some(r.clone()));
    assert_eq!(n.check("gogle.com", &RecordType::A, 60), None);
    assert_eq!(n.len(), 0);
}

#[test]
fn speculative_variants_short_circuit_but_not_the_real_name() {
    let mut n = neg(true);
    let r = nxdomain("gogle.com", 900, 60);
    n.insert("gogle.com", &RecordType::A, &r, 0);
    assert_eq!(n.check("ogle.com", &RecordType::A, 30), Some(r.clone()));
    assert_eq!(n.check("google.com", &RecordType::A, 30), None);
    assert_eq!(n.check("ogle.com", &RecordType::AAAA, 30), None);
}

#[test]
fn speculative_insert_never_overwrites_a_real_entry() {
    let mut n = neg(true);
    let real = nxdomain("ogle.com", 900, 600);
    n.insert("ogle.com", &RecordType::A, &real, 0);
    n.insert("gogle.com", &RecordType::A, &nxdomain("gogle.com", 900, 60), 0);
    assert_eq!(n.check("ogle.com", &RecordType::A, 500), Some(real));
}

#[test]
fn typo_variants_of_a_name() {
    let v = generate_typo_variants("abc.com");
    assert_eq!(v, vec!["bc.com", "ac.com", "ab.com", "bac.com", "acb.com"]);
    assert_eq!(generate_typo_variants("aab.com"), vec!["ab.com", "ab.com", "aa.com", "aba.com"]);
    assert_eq!(generate_typo_variants("com").len(), 0);
    assert_eq!(generate_typo_variants("abcdefgh.com").len(), 10);
    assert_eq!(generate_typo_variants("a.com").len(), 0);
    assert_eq!(generate_typo_variants("éa.com"), vec!["a.com", "é.com", "aé.com"]);
}

#[test]
fn disabled_negative_cache_stores_nothing() {
    let mut n = NegativeCache::new(&NegativeCacheConfig { enabled: false, speculative: true, default_ttl: 300 });
    n.insert("gogle.com", &RecordType::A, &nxdomain("gogle.com", 900, 60), 0);
    assert_eq!(n.check("gogle.com", &RecordType::A, 1), None);
    assert_eq!(n.len(), 0);
}
