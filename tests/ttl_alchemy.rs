use neko_dns::alchemy::TtlAlchemy;

// The frequency- and volatility-adjusted TTL, before clamping.
fn adjusted(original_ttl: u32, hit_count: u64, rdata_changes: u32, wf: f64, wv: f64) -> u64 {
    let freq = (1.0 + hit_count as f64).log2() * wf;
    let vol = rdata_changes as f64 * wv;
    (original_ttl as f64 * (1.0 + freq) / (1.0 + vol)).round() as u64
}

fn calculate(a: &TtlAlchemy, original_ttl: u32, hit_count: u64, rdata_changes: u32) -> u32 {
    a.calculate_ttl(original_ttl, adjusted(original_ttl, hit_count, rdata_changes, 0.3, 0.5))
}

fn test_config() -> TtlAlchemy {
    TtlAlchemy::new(true, 30, 86400)
}

#[test]
fn test_no_hits_no_changes() {
    let alchemy = test_config();
    let result = calculate(&alchemy, 300, 0, 0);
    assert_eq!(result, 300);
}

#[test]
fn test_high_frequency_extends_ttl() {
    let alchemy = test_config();
    let result = calculate(&alchemy, 300, 1000, 0);
    assert!(result > 300, "TTL should be extended: got {}", result);
}

#[test]
fn test_high_volatility_shortens_ttl() {
    let alchemy = test_config();
    let result = calculate(&alchemy, 300, 0, 10);
    assert!(result < 300, "TTL should be shortened: got {}", result);
}

#[test]
fn test_ttl_clamped() {
    let alchemy = test_config();
    let result = calculate(&alchemy, 300, 0, 1000);
    assert!(result >= 30, "TTL should not go below min_ttl: got {}", result);

    let result = calculate(&alchemy, 86400, 1_000_000, 0);
    assert!(result <= 86400, "TTL should not exceed max_ttl: got {}", result);
}

#[test]
fn test_disabled_returns_clamped_original() {
    let alchemy = TtlAlchemy::new(false, 30, 86400);
    let result = calculate(&alchemy, 300, 1000, 0);
    assert_eq!(result, 300);
}

#[test]
fn clamp_bounds_exact_values() {
    let a = TtlAlchemy::new(true, 30, 600);
    assert_eq!(a.calculate_ttl(300, 5), 30);
    assert_eq!(a.calculate_ttl(300, 100_000), 600);
    assert_eq!(a.calculate_ttl(300, 450), 450);
    let off = TtlAlchemy::new(false, 30, 600);
    assert_eq!(off.calculate_ttl(10, 450), 30);
    assert_eq!(off.calculate_ttl(9999, 450), 600);
}

#[test]
fn alchemy_is_monotone_in_hits_and_changes() {
    let a = test_config();
    let mut prev = 0;
    for hits in [0u64, 1, 3, 10, 100, 10_000] {
        let t = calculate(&a, 300, hits, 2);
        assert!(t >= prev);
        prev = t;
    }
    let mut prev = u32::MAX;
    for changes in [0u32, 1, 2, 5, 50] {
        let t = calculate(&a, 300, 10, changes);
        assert!(t <= prev);
        prev = t;
    }
}
