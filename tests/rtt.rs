use neko_dns::infra::{InfraCache, RttInfo, ServerAddr};

fn addr(last: u8) -> ServerAddr {
    ServerAddr { ip: u32::from_be_bytes([10, 0, 0, last]), port: 53 }
}

#[test]
fn first_sample_sets_srtt_and_rttvar() {
    let mut r = RttInfo::new();
    assert_eq!(r.selection_score(), 376);
    assert_eq!(r.rttvar, 94);
    r.update(100);
    assert_eq!(r.srtt, 100);
    assert_eq!(r.rttvar, 50);
    assert_eq!(r.rto, 300);
    assert_eq!(r.selection_score(), 300);
}

#[test]
fn later_samples_move_by_eighth_and_quarter() {
    let mut r = RttInfo::new();
    r.update(100);
    r.update(180);
    assert_eq!(r.srtt, 110);
    assert_eq!(r.rttvar, 57);
    r.update(10);
    assert_eq!(r.srtt, 98);
    assert_eq!(r.rttvar, 67);
}

#[test]
fn rto_is_clamped() {
    let mut r = RttInfo::new();
    r.update(1);
    assert_eq!(r.rto, 50);
    let mut s = RttInfo::new();
    s.update(1_000_000);
    assert_eq!(s.rto, 120_000);
    assert_eq!(RttInfo::calc_rto(0, 0), 50);
}

#[test]
fn timeouts_double_rto_and_count() {
    let mut r = RttInfo::new();
    r.update(100);
    let orig = r.rto;
    r.lost(orig);
    assert_eq!(r.rto, 600);
    assert_eq!(r.timeout_count, 1);
    r.lost(orig);
    assert_eq!(r.rto, 600);
    assert_eq!(r.timeout_count, 2);
    r.update(100);
    assert_eq!(r.timeout_count, 0);
}

#[test]
fn three_timeouts_penalise_the_score() {
    let mut c = InfraCache::new();
    let ip = addr(1).ip;
    for n in 1..=5u32 {
        c.record_timeout(ip);
        assert_eq!(c.get(ip).unwrap().timeout_count, n);
        let score = c.score_of(ip);
        if n >= 3 {
            assert!(score > 10_000);
        } else {
            assert!(score < 10_000);
        }
        assert!(c.get(ip).unwrap().rto <= 120_000);
    }
}

#[test]
fn band_selection_excludes_slow_servers() {
    let mut c = InfraCache::new();
    c.record_rtt(addr(1).ip, 20);
    c.record_rtt(addr(2).ip, 150);
    c.record_rtt(addr(3).ip, 400);
    let servers = vec![addr(1), addr(2), addr(3), addr(4)];
    // Best score 60 (< 100): band 200, limit 260; unknown scores 376.
    let chosen = c.select_servers_by_rtt(&servers, 6);
    let mut ips: Vec<u32> = chosen.iter().map(|s| s.ip).collect();
    ips.sort();
    assert_eq!(ips, vec![addr(1).ip]);
    let with_wide_band = vec![addr(2), addr(3), addr(4)];
    let chosen = c.select_servers_by_rtt(&with_wide_band, 6);
    let mut ips: Vec<u32> = chosen.iter().map(|s| s.ip).collect();
    ips.sort();
    assert_eq!(ips, vec![addr(2).ip, addr(4).ip]);
}

#[test]
fn selection_truncates_to_count() {
    let c = InfraCache::new();
    let servers: Vec<ServerAddr> = (1..=9).map(addr).collect();
    let chosen = c.select_servers_by_rtt(&servers, 4);
    assert_eq!(chosen.len(), 4);
    assert!(chosen.iter().all(|s| servers.contains(s)));
    assert!(c.select_servers_by_rtt(&[], 4).is_empty());
}

#[test]
fn first_sample_after_a_timeout_is_still_first() {
    let mut r = RttInfo::new();
    r.lost(376);
    r.update(800);
    assert_eq!(r.srtt, 800);
    assert_eq!(r.rttvar, 400);
    assert_eq!(r.rto, 2400);
    assert_eq!(r.timeout_count, 0);
}

#[test]
fn a_zero_sample_counts_as_a_sample() {
    let mut r = RttInfo::new();
    r.update(0);
    r.update(800);
    assert_eq!(r.srtt, 100);
    assert_eq!(r.rttvar, 200);
}
