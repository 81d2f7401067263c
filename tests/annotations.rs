use neko_dns::config::{EdnsConfig, NekoCommentConfig};
use neko_dns::edns::{parse_edns_options, EdnsHandler};
use neko_dns::features::{append_feature_record, NekoComment, QueryFeatures};
use neko_dns::metrics::MetricsCounters;
use neko_dns::text::decimal_string;
use neko_dns::types::RecordType;
use neko_dns::upstream::{race_participants, UpstreamStats};
use neko_dns::wire::{build_query, parse_packet};

#[test]
fn summary_lists_tags_in_order() {
    let mut f = QueryFeatures::new();
    assert_eq!(f.to_summary(), "neko-dns []");
    f.cache_hit = true;
    f.ttl_alchemy = true;
    f.edns_detected = true;
    f.upstream_winner = Some("cloudflare".to_string());
    f.latency_ms = Some(12);
    assert_eq!(f.to_summary(), "neko-dns [CACHE_HIT|TTL_ALCHEMY|EDNS] via:cloudflare 12ms");
}

#[test]
fn feature_record_is_appended_and_counted() {
    let neko = NekoComment::new(&NekoCommentConfig { enabled: true });
    assert!(neko.is_enabled());
    let mut f = QueryFeatures::new();
    f.recursive = true;
    let mut resp = build_query(3, "a.com", RecordType::A, true);
    let before = resp.len();
    append_feature_record(&mut resp, &neko, &f);
    let p = parse_packet(&resp).unwrap();
    assert_eq!(p.header.arcount, 1);
    let rec = &p.additionals[0];
    assert_eq!(rec.name, "neko-dns.features");
    assert_eq!(rec.rtype, RecordType::TXT);
    assert_eq!(rec.ttl, 0);
    let text = b"neko-dns [RECURSIVE]";
    assert_eq!(rec.rdata[0] as usize, text.len());
    assert_eq!(&rec.rdata[1..], text);
    assert!(resp.len() > before);
    let off = NekoComment::new(&NekoCommentConfig { enabled: false });
    let mut resp2 = build_query(3, "a.com", RecordType::A, true);
    append_feature_record(&mut resp2, &off, &f);
    assert_eq!(resp2, build_query(3, "a.com", RecordType::A, true));
}

#[test]
fn long_summaries_are_split_into_character_strings() {
    let neko = NekoComment::new(&NekoCommentConfig { enabled: true });
    let mut f = QueryFeatures::new();
    f.upstream_winner = Some("u".repeat(300));
    let rec = neko.build_feature_txt(&f).unwrap();
    let p = {
        let mut msg = build_query(1, "a", RecordType::A, false);
        msg[11] = 1;
        msg.extend_from_slice(&rec);
        parse_packet(&msg).unwrap()
    };
    let rdata = &p.additionals[0].rdata;
    assert_eq!(rdata[0], 255);
    assert_eq!(rdata[256] as usize, rdata.len() - 257);
    f.upstream_winner = Some("u".repeat(600));
    assert!(neko.build_feature_txt(&f).is_none());
}

#[test]
fn edns_private_options_are_read() {
    let mut opt_rdata = Vec::new();
    opt_rdata.extend_from_slice(&65001u16.to_be_bytes());
    opt_rdata.extend_from_slice(&3u16.to_be_bytes());
    opt_rdata.extend_from_slice(b"cat");
    opt_rdata.extend_from_slice(&10u16.to_be_bytes());
    opt_rdata.extend_from_slice(&1u16.to_be_bytes());
    opt_rdata.push(9);
    assert_eq!(parse_edns_options(&opt_rdata), vec![(65001, b"cat".to_vec())]);
    let h = EdnsHandler::new(&EdnsConfig { enabled: true, custom_option_code: 65001 });
    let mut q = build_query(5, "x.com", RecordType::A, true);
    q[11] = 1;
    let opt = h.build_opt_record(&[(65001, b"cat".as_slice())]);
    q.extend_from_slice(&opt);
    let meta = h.extract_options(&q).unwrap();
    assert_eq!(meta.options, vec![(65001, b"cat".to_vec())]);
    let off = EdnsHandler::new(&EdnsConfig { enabled: false, custom_option_code: 65001 });
    assert!(off.extract_options(&q).is_none());
    assert!(h.extract_options(&build_query(5, "x.com", RecordType::A, true)).is_none());
}

#[test]
fn decimal_text() {
    assert_eq!(decimal_string(0), "0");
    assert_eq!(decimal_string(12345), "12345");
    assert_eq!(decimal_string(u64::MAX), "18446744073709551615");
}

#[test]
fn metrics_count_types_and_latency() {
    let mut m = MetricsCounters::new(5);
    m.inc_query_type(&RecordType::A);
    m.inc_query_type(&RecordType::Unknown(65));
    m.inc_query_type(&RecordType::Unknown(99));
    m.record_recursive_latency(1500);
    m.record_recursive_latency(500);
    assert_eq!(m.query_type_a, 1);
    assert_eq!(m.query_type_https, 1);
    assert_eq!(m.query_type_other, 1);
    assert_eq!(m.recursive_latency_sum_us, 2000);
    assert_eq!(m.recursive_latency_count, 2);
    assert_eq!(m.start_time, 5);
}

#[test]
fn upstream_latency_ring_and_race_participants() {
    let mut u = UpstreamStats::new("a".to_string());
    for ms in 0..150u64 {
        u.record_latency(ms);
    }
    assert_eq!(u.latencies_ms.len(), 100);
    assert_eq!(u.latencies_ms[0], 50);
    u.record_outcome(false);
    u.record_outcome(true);
    assert_eq!((u.total_queries, u.total_failures), (2, 1));
    let mut ups = vec![UpstreamStats::new("a".into()), UpstreamStats::new("b".into()), UpstreamStats::new("c".into())];
    ups[1].disabled = true;
    assert_eq!(race_participants(&mut ups), vec![0, 2]);
    for x in ups.iter_mut() {
        x.disabled = true;
    }
    assert_eq!(race_participants(&mut ups), vec![0, 1, 2]);
    assert!(ups.iter().all(|x| !x.disabled));
}
