use neko_dns::alchemy::TtlAlchemy;
use neko_dns::classify::{classify_response, DfsResult};
use neko_dns::config::{CacheConfig, EdnsConfig, NegativeCacheConfig, NekoCommentConfig};
use neko_dns::deleg::{DelegEntry, DelegationCache};
use neko_dns::engine::{
    first_answer_ttl, local_zone_match, matches_query_id, patch_response, Begin, LocalZone, QueryEngine,
};
use neko_dns::infra::ServerAddr;
use neko_dns::name::encode_name;
use neko_dns::resolver::{
    extract_a_records, per_server_timeout, Outcome, RecursiveConfig, RecursiveResolver, RoundResult, Step,
};
use neko_dns::types::RecordType;
use neko_dns::wire::{build_query, parse_packet};

fn ip(a: u8, b: u8, c: u8, d: u8) -> u32 {
    u32::from_be_bytes([a, b, c, d])
}

fn record(out: &mut Vec<u8>, name: &str, rtype: u16, ttl: u32, rdata: &[u8]) {
    out.extend_from_slice(&encode_name(name));
    out.extend_from_slice(&rtype.to_be_bytes());
    out.extend_from_slice(&1u16.to_be_bytes());
    out.extend_from_slice(&ttl.to_be_bytes());
    out.extend_from_slice(&(rdata.len() as u16).to_be_bytes());
    out.extend_from_slice(rdata);
}

fn header(qname: &str, rcode: u8, an: u8, ns: u8, ar: u8) -> Vec<u8> {
    let mut p = build_query(0x4242, qname, RecordType::A, false);
    p[2] = 0x84;
    p[3] = rcode;
    p[7] = an;
    p[9] = ns;
    p[11] = ar;
    p
}

fn referral(qname: &str, zone: &str, ns: &str, glue: [u8; 4]) -> Vec<u8> {
    let mut p = header(qname, 0, 0, 1, 1);
    record(&mut p, zone, 2, 172800, &encode_name(ns));
    record(&mut p, ns, 1, 172800, &glue);
    p
}

fn answer(qname: &str, addr: [u8; 4]) -> Vec<u8> {
    let mut p = header(qname, 0, 1, 0, 0);
    record(&mut p, qname, 1, 300, &addr);
    p
}

fn soa_rdata() -> Vec<u8> {
    let mut r = encode_name("ns.example.com");
    r.extend_from_slice(&encode_name("admin.example.com"));
    for v in [1u32, 7200, 900, 1209600, 60] {
        r.extend_from_slice(&v.to_be_bytes());
    }
    r
}

fn config() -> RecursiveConfig {
    RecursiveConfig { parallel_branches: 3, max_depth: 8, query_timeout_ms: 2000 }
}

fn root() -> ServerAddr {
    ServerAddr { ip: ip(198, 41, 0, 4), port: 53 }
}

#[test]
fn referral_is_classified_with_glue() {
    let r = referral("example.com", "com", "a.gtld-servers.net", [192, 5, 6, 30]);
    match classify_response(&r) {
        DfsResult::Referral { ns_names, ns_addrs, zone, glue_records } => {
            assert_eq!(ns_names, vec!["a.gtld-servers.net".to_string()]);
            assert_eq!(zone, "com");
            assert_eq!(ns_addrs, vec![ServerAddr { ip: ip(192, 5, 6, 30), port: 53 }]);
            assert_eq!(glue_records, vec![("a.gtld-servers.net".to_string(), ip(192, 5, 6, 30))]);
        }
        other => panic!("unexpected {:?}", other),
    }
}

#[test]
fn nodata_is_an_answer_and_nxdomain_and_errors_are_recognised() {
    let mut nodata = header("example.com", 0, 0, 1, 0);
    record(&mut nodata, "example.com", 6, 3600, &soa_rdata());
    assert!(matches!(classify_response(&nodata), DfsResult::Answer(b) if b == nodata));
    let mut nx = header("nope.example.com", 3, 0, 1, 0);
    record(&mut nx, "example.com", 6, 3600, &soa_rdata());
    assert!(matches!(classify_response(&nx), DfsResult::NxDomain(_)));
    assert!(matches!(classify_response(&[1, 2, 3]), DfsResult::Error));
    assert!(matches!(classify_response(&header("x.com", 0, 0, 0, 0)), DfsResult::Error));
    let a = answer("example.com", [93, 184, 216, 34]);
    assert!(matches!(classify_response(&a), DfsResult::Answer(_)));
    assert_eq!(extract_a_records(&a), vec![ip(93, 184, 216, 34)]);
}

#[test]
fn closest_delegation_and_root_fallback() {
    let mut d = DelegationCache::new(vec![root()]);
    let (addrs, zone, levels) = d.find_closest_delegation("www.example.com.", 0);
    assert_eq!((addrs, zone.as_str(), levels), (vec![root()], ".", 0));
    let tld = ServerAddr { ip: ip(192, 5, 6, 30), port: 53 };
    d.store("COM.", DelegEntry { ns_addrs: vec![tld], ns_names: vec![], glue: vec![], created: 0, ttl_secs: 1800 });
    let (addrs, zone, levels) = d.find_closest_delegation("www.example.com", 10);
    assert_eq!((addrs, zone.as_str(), levels), (vec![tld], "com", 2));
    let (addrs, _, _) = d.find_closest_delegation("www.example.com", 1801);
    assert_eq!(addrs, vec![root()]);
    let (_, zone, _) = d.find_closest_delegation("www.example.com", 10);
    assert_eq!(zone, ".");
}

#[test]
fn delegation_addresses_add_glue_without_repeats() {
    let a = ServerAddr { ip: ip(1, 1, 1, 1), port: 53 };
    let e = DelegEntry {
        ns_addrs: vec![a],
        ns_names: vec!["ns1".to_string()],
        glue: vec![("ns1".to_string(), ip(1, 1, 1, 1)), ("ns2".to_string(), ip(2, 2, 2, 2))],
        created: 0,
        ttl_secs: 10,
    };
    assert_eq!(e.all_addrs(), vec![a, ServerAddr { ip: ip(2, 2, 2, 2), port: 53 }]);
}

#[test]
fn adaptive_timeouts() {
    assert_eq!(per_server_timeout(2000, 0, None), 2000);
    assert_eq!(per_server_timeout(2000, 3, None), 1400);
    assert_eq!(per_server_timeout(2000, 9, None), 400);
    assert_eq!(per_server_timeout(2000, 0, Some(100)), 500);
    assert_eq!(per_server_timeout(2000, 0, Some(600)), 1200);
}

#[test]
fn cold_resolution_follows_referrals_to_the_answer() {
    let mut r = RecursiveResolver::new(config(), vec![root()]);
    let mut res = r.start("example.com", RecordType::A, 0, true);
    assert_eq!(res.depth, 0);
    assert_eq!(res.servers, vec![root()]);
    let step = r.next_step(&res);
    match &step {
        Step::Query { servers, timeouts_ms } => {
            assert_eq!(servers, &vec![root()]);
            assert_eq!(timeouts_ms, &vec![2000]);
        }
        other => panic!("unexpected {:?}", other),
    }
    let from_root = referral("example.com", "com", "a.gtld-servers.net", [192, 5, 6, 30]);
    let step = r.on_results(&mut res, &vec![RoundResult { server: root(), outcome: Outcome::Response { bytes: from_root, latency_ms: 20 } }], 1);
    assert!(matches!(step, Step::Query { .. }));
    assert_eq!(res.depth, 1);
    assert_eq!(res.zone, "com");
    let tld = ServerAddr { ip: ip(192, 5, 6, 30), port: 53 };
    assert_eq!(res.servers, vec![tld]);
    let from_tld = referral("example.com", "example.com", "ns.example.com", [199, 43, 135, 53]);
    let step = r.on_results(&mut res, &vec![RoundResult { server: tld, outcome: Outcome::Response { bytes: from_tld, latency_ms: 30 } }], 2);
    assert!(matches!(step, Step::Query { .. }));
    assert_eq!(res.zone, "example.com");
    let auth = ServerAddr { ip: ip(199, 43, 135, 53), port: 53 };
    let final_answer = answer("example.com", [93, 184, 216, 34]);
    let step = r.on_results(&mut res, &vec![
        RoundResult { server: auth, outcome: Outcome::Timeout },
        RoundResult { server: auth, outcome: Outcome::Response { bytes: final_answer.clone(), latency_ms: 40 } },
    ], 3);
    match step {
        Step::Done(b) => assert_eq!(b, final_answer),
        other => panic!("unexpected {:?}", other),
    }
    // The delegations are now cached: a new query starts at example.com.
    let res2 = r.start("www.example.com", RecordType::A, 4, true);
    assert_eq!(res2.zone, "example.com");
    assert_eq!(res2.depth, 1);
    assert_eq!(res2.servers, vec![auth]);
}

#[test]
fn referral_without_glue_asks_for_ns_resolution() {
    let mut r = RecursiveResolver::new(config(), vec![root()]);
    let mut res = r.start("example.org", RecordType::A, 0, true);
    let mut p = header("example.org", 0, 0, 1, 0);
    record(&mut p, "org", 2, 100, &encode_name("ns.elsewhere.net"));
    let step = r.on_results(&mut res, &vec![RoundResult { server: root(), outcome: Outcome::Response { bytes: p, latency_ms: 5 } }], 0);
    match step {
        Step::ResolveNs { names } => assert_eq!(names, vec!["ns.elsewhere.net".to_string()]),
        other => panic!("unexpected {:?}", other),
    }
    let step = r.on_ns_addresses(&mut res, &vec![ip(8, 8, 4, 4)]);
    assert!(matches!(step, Step::Query { .. }));
    assert_eq!(res.servers, vec![ServerAddr { ip: ip(8, 8, 4, 4), port: 53 }]);
    assert!(matches!(r.on_ns_addresses(&mut res, &vec![]), Step::Fail));
}

#[test]
fn all_errors_fail_the_round_and_depth_limit_stops() {
    let mut r = RecursiveResolver::new(config(), vec![root()]);
    let mut res = r.start("example.com", RecordType::A, 0, true);
    let step = r.on_results(&mut res, &vec![RoundResult { server: root(), outcome: Outcome::Timeout }], 0);
    assert!(matches!(step, Step::Fail));
    res.depth = 8;
    assert!(matches!(r.next_step(&res), Step::Fail));
}

fn engine() -> QueryEngine {
    QueryEngine::new(
        &CacheConfig { max_entries: 100, serve_stale: false, stale_ttl_secs: 0 },
        TtlAlchemy::new(true, 30, 86400),
        &NegativeCacheConfig { enabled: true, speculative: true, default_ttl: 300 },
        &NekoCommentConfig { enabled: false },
        &EdnsConfig { enabled: true, custom_option_code: 65001 },
    )
}

fn keep(o: u32, _h: u64, _c: u32) -> u64 {
    o as u64
}

#[test]
fn warm_hit_after_miss_comes_from_the_cache() {
    let mut e = engine();
    let q = build_query(0x0101, "example.com", RecordType::A, true);
    let (name, qtype, features) = match e.begin_query(&q, 0).unwrap() {
        Begin::Resolve { qname, qtype, features } => (qname, qtype, features),
        other => panic!("unexpected {:?}", other),
    };
    assert!(features.cache_miss);
    let mut resp = answer("example.com", [93, 184, 216, 34]);
    patch_response(&mut resp, &q);
    let out = e.finish_query(&name, &qtype, resp.clone(), "recursive", &features, 0, keep).unwrap();
    assert_eq!(out, resp);
    let q2 = build_query(0x0202, "example.com", RecordType::A, true);
    match e.begin_query(&q2, 100).unwrap() {
        Begin::Reply { response, features } => {
            assert!(features.cache_hit);
            let p = parse_packet(&response).unwrap();
            assert_eq!(p.header.id, 0x0202);
            assert_eq!(p.answers[0].ttl, 200);
            assert_eq!(p.answers[0].rdata, vec![93, 184, 216, 34]);
        }
        other => panic!("unexpected {:?}", other),
    }
    assert_eq!(e.cache_entry_stats("example.com", &RecordType::A), Some((1, 0, 300)));
}

#[test]
fn nxdomain_result_is_answered_from_the_negative_cache() {
    let mut e = engine();
    let q = build_query(7, "gogle.com", RecordType::A, true);
    let features = match e.begin_query(&q, 0).unwrap() {
        Begin::Resolve { features, .. } => features,
        other => panic!("unexpected {:?}", other),
    };
    let mut nx = header("gogle.com", 3, 0, 1, 0);
    record(&mut nx, "com", 6, 900, &soa_rdata());
    e.finish_query("gogle.com", &RecordType::A, nx.clone(), "recursive", &features, 0, keep).unwrap();
    let q2 = build_query(8, "ogle.com", RecordType::A, true);
    match e.begin_query(&q2, 10).unwrap() {
        Begin::Reply { response, features } => {
            assert!(features.negative_cache_hit);
            assert_eq!(response, nx);
        }
        other => panic!("unexpected {:?}", other),
    }
    let q3 = build_query(9, "google.com", RecordType::A, true);
    assert!(matches!(e.begin_query(&q3, 10).unwrap(), Begin::Resolve { .. }));
    assert!(e.begin_query(&[1, 2, 3], 0).is_err());
}

#[test]
fn local_zones_patching_and_ids() {
    let zones = vec![
        LocalZone { domain: "Home.Lan".to_string(), server: "192.168.1.1".to_string(), port: 53, timeout_ms: 500 },
        LocalZone { domain: "corp".to_string(), server: "10.0.0.1".to_string(), port: 53, timeout_ms: 500 },
    ];
    assert_eq!(local_zone_match("printer.home.lan", &zones), Some(0));
    assert_eq!(local_zone_match("HOME.LAN", &zones), Some(0));
    assert_eq!(local_zone_match("myhome.lan", &zones), None);
    assert_eq!(local_zone_match("x.corp", &zones), Some(1));
    let q = build_query(0xABCD, "x.com", RecordType::A, true);
    let mut r = answer("x.com", [1, 2, 3, 4]);
    patch_response(&mut r, &q);
    assert_eq!((r[0], r[1]), (0xAB, 0xCD));
    assert_eq!(r[3] & 0x80, 0x80);
    assert!(matches_query_id(&r, 0xABCD));
    assert!(!matches_query_id(&r, 0xABCE));
    assert!(!matches_query_id(&[1], 1));
    assert_eq!(first_answer_ttl(&r), 300);
    assert_eq!(first_answer_ttl(&q), 0);
}
