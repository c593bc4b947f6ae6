use ribbonguard::baseline::{count_hits, FuseBaseline};
use ribbonguard::generators::{member_set, negative_universe};
use ribbonguard::BlockedFilter;

/// The xor baseline reports every key it was built from, and rejects most
/// other keys.
#[test]
fn baseline_has_no_false_negatives() {
    let keys = member_set(10_000, 0x77);
    let b = FuseBaseline::build(&keys).expect("xorf build");
    for &k in &keys {
        assert!(b.contains(k));
    }
    assert_eq!(b.count_hits(&keys), keys.len());
    let absent = negative_universe(100_000, 0x88);
    let fp = b.count_hits(&absent);
    assert!(fp < absent.len() / 20, "baseline FP count {fp} too high");
    assert!(b.fingerprint_bytes() >= keys.len());
}

/// Hit counting over a blocked filter counts present probes with repetition.
#[test]
fn blocked_hit_counting() {
    let mut f = BlockedFilter::with_buckets(64);
    for k in 0u64..100 {
        f.insert(k);
    }
    let probes: Vec<u64> = (0u64..100).chain(0u64..10).collect();
    assert_eq!(count_hits(&f, &probes), 110);
    assert_eq!(count_hits(&f, &[]), 0);
}

/// The small-set entry point builds below 64 keys and declines from 64 on.
#[test]
fn baseline_small_sets() {
    let keys = member_set(63, 0x99);
    let b = FuseBaseline::build_small(&keys).expect("xorf build of 63 keys");
    assert!(keys.iter().all(|&k| b.contains(k)));
    let too_many = member_set(64, 0x99);
    assert!(FuseBaseline::build_small(&too_many).is_none());
    let none: Vec<u64> = Vec::new();
    if let Some(e) = FuseBaseline::build_small(&none) {
        assert_eq!(e.count_hits(&[]), 0);
    }
}
