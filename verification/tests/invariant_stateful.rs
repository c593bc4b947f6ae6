//! The no-false-negative invariant at scale, against a shadow set.

use ribbonguard::{BlockedFilter, SplitMix64};
use std::collections::HashSet;

/// Two million inserts into a filter loaded past its sixteen slots per bucket,
/// then a full shadow sweep.
#[test]
fn long_run_large_filter() {
    let n_ops = 2_000_000usize;
    // ~20 distinct keys/bucket > 16 slots -> guaranteed, heavy overflow at scale.
    let n_buckets = n_ops / 20;
    let mut f = BlockedFilter::with_buckets(n_buckets);
    let mut shadow: HashSet<u64> = HashSet::with_capacity(n_ops);
    let mut rng = SplitMix64::new(0x5EED_1234_ABCD);

    for _ in 0..n_ops {
        let k = rng.next_u64();
        f.insert(k);
        shadow.insert(k);
    }
    for &k in &shadow {
        assert!(f.contains(k), "FALSE NEGATIVE at scale for key {k:#x}");
    }
    assert!(f.overflow_len() > 0, "expected overflow to engage at load ~4");
}

/// Deterministic interleaving of inserts and marks over disjoint domains,
/// checked against a shadow set after every operation.
#[test]
fn interleaved_inserts_and_marks_keep_members() {
    let mut rng = SplitMix64::new(0xC0DE);
    for case in 0..50u64 {
        let n_buckets = 1 + (case as usize % 8);
        let cap = (case as usize * 7) % 20;
        let mut f = ribbonguard::AdaptiveFilter::with_buckets(n_buckets, cap);
        let mut shadow: HashSet<u64> = HashSet::new();
        for _ in 0..300 {
            let r = rng.next_u64();
            let v = (r >> 1) % 1_000;
            if r & 1 == 1 {
                f.mark_false_positive(1_000_000 + v);
            } else {
                f.insert(v);
                shadow.insert(v);
            }
            for &m in &shadow {
                assert!(f.contains(m));
            }
        }
    }
}
