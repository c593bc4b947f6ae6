use ribbonguard::{BlockedFilter, SplitMix64, SLOTS};

/// No false negatives: insert K random keys, all must be found.
#[test]
fn no_false_negatives() {
    let k = 200_000usize;
    // Load factor ~2.5 keys/bucket.
    let n_buckets = (k as f64 / 2.5).ceil() as usize;
    let mut f = BlockedFilter::with_buckets(n_buckets);
    let mut rng = SplitMix64::new(0xDEAD_BEEF);
    let keys: Vec<u64> = (0..k).map(|_| rng.next_u64()).collect();
    for &key in &keys {
        f.insert(key);
    }
    for &key in &keys {
        assert!(f.contains(key), "FALSE NEGATIVE for key {key:#x}");
    }
}

/// Adversarial: force full buckets (tiny n_buckets); still no false negatives.
#[test]
fn no_false_negatives_overflow_stress() {
    let k = 50_000usize;
    let n_buckets = 64; // ~780 keys/bucket -> massive overflow
    let mut f = BlockedFilter::with_buckets(n_buckets);
    let mut rng = SplitMix64::new(0x1234);
    let keys: Vec<u64> = (0..k).map(|_| rng.next_u64()).collect();
    for &key in &keys {
        f.insert(key);
    }
    for &key in &keys {
        assert!(f.contains(key), "FALSE NEGATIVE (overflow) key {key:#x}");
    }
    assert!(f.overflow_len() > 0, "expected overflow to engage");
}

#[test]
fn measures_a_plausible_fp_rate() {
    let k = 500_000usize;
    let n_buckets = (k as f64 / 2.5).ceil() as usize;
    let mut f = BlockedFilter::with_buckets(n_buckets);
    let mut rng = SplitMix64::new(1);
    for _ in 0..k {
        f.insert(rng.next_u64());
    }
    // Fresh keys disjoint from inserted (different seed stream region).
    let mut q = SplitMix64::new(0xFFFF_0000_AAAA);
    let trials = 1_000_000usize;
    let mut fp = 0usize;
    for _ in 0..trials {
        if f.contains(q.next_u64()) {
            fp += 1;
        }
    }
    let rate = fp as f64 / trials as f64;
    // ~1% expected at load 2.5; assert loosely to catch gross bugs.
    assert!(rate > 0.001 && rate < 0.05, "FP rate {rate} out of sane range");
}

/// Exact values of the generator: the state advances by the Weyl increment and
/// the finalizer adds it once more before mixing.
#[test]
fn splitmix64_exact_values() {
    let mut rng = SplitMix64::new(0);
    assert_eq!(rng.next_u64(), 0x6E78_9E6A_A1B9_65F4);
    assert_eq!(rng.next_u64(), 0x06C4_5D18_8009_454F);
}

/// A fresh filter is empty, holds `n_buckets * SLOTS` zeroed bytes and no overflow.
#[test]
fn fresh_filter_accounting() {
    let f = BlockedFilter::with_buckets(7);
    assert_eq!(f.n_buckets(), 7);
    assert_eq!(f.store_bytes(), 7 * SLOTS);
    assert_eq!(f.len(), 0);
    assert!(f.is_empty());
    assert_eq!(f.overflow_len(), 0);
    assert!(!f.contains(12345));
}

/// `len` counts insert calls, duplicates included; a duplicate stores nothing new.
#[test]
fn len_counts_every_insert() {
    let mut f = BlockedFilter::with_buckets(4);
    f.insert(9);
    f.insert(9);
    f.insert(10);
    assert_eq!(f.len(), 3);
    assert!(!f.is_empty());
    assert!(f.contains(9) && f.contains(10));
    assert_eq!(f.overflow_len(), 0);
}

/// One bucket holds sixteen distinct fingerprints; the keys beyond go to overflow,
/// and every key stays present (monotonicity after each insert).
#[test]
fn single_bucket_spills_to_overflow() {
    let mut f = BlockedFilter::with_buckets(1);
    let mut inserted: Vec<u64> = Vec::new();
    for k in 0u64..64 {
        f.insert(k);
        inserted.push(k);
        for &m in &inserted {
            assert!(f.contains(m));
        }
    }
    assert!(f.overflow_len() > 0);
    assert!(f.overflow_len() <= 64 - SLOTS);
}

/// Re-inserting a key changes only the insert count.
#[test]
fn reinsert_changes_only_len() {
    let mut f = BlockedFilter::with_buckets(1);
    for k in 0u64..40 {
        f.insert(k);
    }
    let overflow = f.overflow_len();
    let present: Vec<bool> = (0u64..200).map(|x| f.contains(x)).collect();
    f.insert(39);
    f.insert(39);
    assert_eq!(f.len(), 42);
    assert_eq!(f.overflow_len(), overflow);
    let after: Vec<bool> = (0u64..200).map(|x| f.contains(x)).collect();
    assert_eq!(present, after);
}

/// At most sixteen distinct keys never overflow, even into one bucket.
#[test]
fn sixteen_keys_never_overflow() {
    let mut f = BlockedFilter::with_buckets(1);
    for k in 100u64..116 {
        f.insert(k);
        f.insert(k);
    }
    assert_eq!(f.overflow_len(), 0);
}

/// An empty filter reports nothing present.
#[test]
fn empty_filter_reports_nothing() {
    let f = BlockedFilter::with_buckets(3);
    assert!((0u64..10_000).all(|x| !f.contains(x)));
}
