//! The no-false-negative invariant, checked by brute force over tiny key
//! universes and tiny filters that force fingerprint collisions and overflow.

use ribbonguard::{BlockedFilter, SplitMix64};

/// Build a filter from an explicit key list and check that every inserted key
/// tests present. Returns whether overflow engaged.
fn assert_all_present(keys: &[u64], n_buckets: usize) -> bool {
    let mut f = BlockedFilter::with_buckets(n_buckets);
    for &k in keys {
        f.insert(k);
    }
    for &k in keys {
        assert!(
            f.contains(k),
            "FALSE NEGATIVE: key {k:#x} inserted but absent (n_buckets={n_buckets}, set={keys:?})"
        );
    }
    f.overflow_len() > 0
}

/// All 2^16 subsets of a 16-key universe, with only a handful of buckets.
#[test]
fn exhaustive_all_subsets_collision() {
    const U: u32 = 16; // universe = keys 0..16
    for &n_buckets in &[1usize, 2, 3] {
        for mask in 0u32..(1u32 << U) {
            let keys: Vec<u64> = (0..U).filter(|i| mask & (1 << i) != 0).map(|i| i as u64).collect();
            assert_all_present(&keys, n_buckets);
        }
    }
}

/// All 2^19 subsets of a 19-key universe routed into a single bucket, so
/// large subsets spill into the overflow set.
#[test]
fn exhaustive_all_subsets_overflow() {
    const U: u32 = 19; // universe = keys 0..19, all into bucket 0
    let mut overflow_seen = false;
    for mask in 0u32..(1u32 << U) {
        let keys: Vec<u64> = (0..U).filter(|i| mask & (1 << i) != 0).map(|i| i as u64).collect();
        overflow_seen |= assert_all_present(&keys, 1);
    }
    assert!(
        overflow_seen,
        "expected full-bucket overflow to engage somewhere in the 2^18 enumeration"
    );
}

/// The entire 0..256 universe inserted into tiny filters.
#[test]
fn explicit_full_universe_overflow() {
    let all: Vec<u64> = (0u64..256).collect();
    for &n_buckets in &[1usize, 2, 3, 4] {
        let overflowed = assert_all_present(&all, n_buckets);
        assert!(
            overflowed,
            "the full 0..256 universe in {n_buckets} bucket(s) must overflow"
        );
    }
}

/// Many deterministically generated random subsets of 0..256 into tiny filters.
#[test]
fn sampled_subsets_full_universe() {
    let mut rng = SplitMix64::new(0x0A11_CE5E_ED00);
    let mut overflow_seen = false;
    for _ in 0..200_000 {
        // Each key in 0..256 is included with ~50% probability via a random bit.
        let r0 = rng.next_u64();
        let r1 = rng.next_u64();
        let r2 = rng.next_u64();
        let r3 = rng.next_u64();
        let words = [r0, r1, r2, r3];
        let keys: Vec<u64> = (0u64..256)
            .filter(|&k| (words[(k >> 6) as usize] >> (k & 63)) & 1 == 1)
            .collect();
        let n_buckets = 1 + (rng.next_u64() % 4) as usize; // tiny: 1..=4
        overflow_seen |= assert_all_present(&keys, n_buckets);
    }
    assert!(overflow_seen, "sampled full-universe subsets should hit overflow");
}
