//! The no-false-negative invariant under adaptation: marking confirmed
//! non-members never suppresses an inserted member.

use ribbonguard::{AdaptiveFilter, BlockedFilter, SplitMix64};
use std::collections::HashSet;

/// For every insertion subset of a tiny universe, mark every confirmed
/// non-member one at a time and re-check every member after each mark.
#[test]
fn adaptive_exhaustive_subsets_marks() {
    const U: u32 = 14; // universe = keys 0..14
    const CAP: usize = 6; // < |non-members| in many subsets -> forces eviction
    for &n_buckets in &[1usize, 2, 3] {
        for mask in 0u32..(1u32 << U) {
            let members: Vec<u64> =
                (0..U).filter(|i| mask & (1 << i) != 0).map(|i| i as u64).collect();
            let non_members: Vec<u64> =
                (0..U).filter(|i| mask & (1 << i) == 0).map(|i| i as u64).collect();

            let mut f = AdaptiveFilter::with_buckets(n_buckets, CAP);
            for &m in &members {
                f.insert(m);
            }
            for &nm in &non_members {
                f.mark_false_positive(nm);
                for &m in &members {
                    assert!(
                        f.contains(m),
                        "FALSE NEGATIVE under adaptation: member {m} suppressed after \
                         marking non-member {nm} (n_buckets={n_buckets}, members={members:?})"
                    );
                }
            }
        }
    }
}

/// A heavily overflowed base (0..256 in one bucket); mark the base's real
/// false positives and check that each is suppressed and every member survives.
#[test]
fn adaptive_overflow_real_fp_marks() {
    let members: Vec<u64> = (0u64..256).collect();
    let member_set: HashSet<u64> = members.iter().copied().collect();

    // Reference base (no guard) to identify genuine false positives.
    let mut base = BlockedFilter::with_buckets(1);
    for &m in &members {
        base.insert(m);
    }
    assert!(base.overflow_len() > 0, "expected heavy overflow at n_buckets=1");

    let mut rng = SplitMix64::new(0xF00D_BEEF_1357);
    let mut real_fps: Vec<u64> = Vec::new();
    while real_fps.len() < 400 {
        let cand = 100_000 + (rng.next_u64() % 10_000_000);
        if !member_set.contains(&cand) && base.contains(cand) {
            real_fps.push(cand);
        }
    }

    let mut f = AdaptiveFilter::with_buckets(1, 64);
    for &m in &members {
        f.insert(m);
    }
    for &fp in &real_fps {
        assert!(f.contains(fp), "precondition: real FP reads present pre-mark");
        f.mark_false_positive(fp);
        assert!(!f.contains(fp), "marked real FP must be suppressed");
        for &m in &members {
            assert!(
                f.contains(m),
                "FALSE NEGATIVE: member {m} suppressed after marking co-resident FP {fp}"
            );
        }
    }
}
