use ribbonguard::generators::{
    adversarial_stream, member_set, negative_universe, replay_tally, uniform_stream,
};
use std::collections::HashSet;

const NEG_TAG: u64 = 1u64 << 63;

/// Members and every negative generator are disjoint (member top bit 0,
/// negative top bit 1), and each generator returns distinct values.
#[test]
fn negatives_are_disjoint_from_members() {
    let members = member_set(50_000, 0xA11CE);
    let universe = negative_universe(50_000, 0xBEEF);
    let adv = adversarial_stream(20_000, 0xF00D);

    // Tag-bit guarantee (this is what makes disjointness provable).
    assert!(members.iter().all(|&m| m & NEG_TAG == 0), "member tag bit");
    assert!(universe.iter().all(|&v| v & NEG_TAG != 0), "negative tag bit");
    assert!(adv.iter().all(|&v| v & NEG_TAG != 0), "adversarial tag bit");

    // Empirical set-intersection is empty.
    let mset: HashSet<u64> = members.iter().copied().collect();
    assert!(
        universe.iter().all(|v| !mset.contains(v)),
        "negative universe overlaps members"
    );
    assert!(
        adv.iter().all(|v| !mset.contains(v)),
        "adversarial stream overlaps members"
    );

    // Generators honor their distinctness contract.
    assert_eq!(members.iter().copied().collect::<HashSet<_>>().len(), 50_000);
    assert_eq!(universe.iter().copied().collect::<HashSet<_>>().len(), 50_000);
    assert_eq!(adv.iter().copied().collect::<HashSet<_>>().len(), 20_000);
}

/// Broad/adversarial regime: under an all-distinct stream the guard churns
/// (evictions > 0) and a residual false-positive floor remains. Members are
/// never suppressed.
#[test]
fn adversarial_regime_leaves_a_residual_floor() {
    let k = 20_000usize;
    let n = 1_000_000usize;
    let window = 200_000usize;
    let lambda = 2.5;

    let members = member_set(k, 0x4444);
    let stream = adversarial_stream(n, 0x5555);
    let n_buckets = ((members.len() as f64 / lambda).ceil() as usize).max(1);

    let flat = replay_tally(&members, n_buckets, 0, false, &stream, window);
    let adaptive = replay_tally(&members, n_buckets, 512, true, &stream, window);
    let flat_fp = flat.fp_window as f64 / flat.window as f64;
    let adaptive_fp = adaptive.fp_window as f64 / adaptive.window as f64;

    assert!(adaptive.members_present, "member suppressed under adversarial");
    // Cap forces eviction under all-distinct negatives.
    assert!(adaptive.evictions > 0, "expected cap eviction churn");
    // A residual floor remains: adaptation cannot drive FP to ~0 with no
    // recurrence. It stays a meaningful fraction of the flat rate.
    assert!(
        adaptive_fp > flat_fp * 0.25,
        "adversarial adaptive {} unexpectedly far below flat {} (should floor)",
        adaptive_fp,
        flat_fp
    );
}

/// negative_universe and adversarial_stream are the same generator.
#[test]
fn adversarial_stream_matches_negative_universe() {
    assert_eq!(adversarial_stream(1000, 7), negative_universe(1000, 7));
    // A shorter request is a prefix of a longer one.
    let long = member_set(300, 99);
    let short = member_set(120, 99);
    assert_eq!(&long[..120], &short[..]);
}

/// Edge cases: zero-length requests.
#[test]
fn empty_requests() {
    assert!(member_set(0, 1).is_empty());
    assert!(negative_universe(0, 1).is_empty());
    assert!(uniform_stream(&[5u64], 0, 3).is_empty());
}

/// Every uniform-stream element comes from the universe, and a universe of
/// one value gives that value throughout.
#[test]
fn uniform_stream_draws_from_universe() {
    let universe = negative_universe(37, 0xABC);
    let s = uniform_stream(&universe, 5_000, 0xDEF);
    assert_eq!(s.len(), 5_000);
    let u: HashSet<u64> = universe.iter().copied().collect();
    assert!(s.iter().all(|v| u.contains(v)));
    let single = uniform_stream(&[42u64], 10, 1);
    assert_eq!(single, vec![42u64; 10]);
}

/// With adaptation on a hot stream, every recurring false positive gets
/// suppressed after its first occurrence, and members stay present.
#[test]
fn replay_on_recurring_stream_suppresses() {
    let members = member_set(2_000, 0x1111);
    let universe = negative_universe(200, 0x2222);
    let stream = uniform_stream(&universe, 20_000, 0x3333);
    let flat = replay_tally(&members, 8, 0, false, &stream, 10_000);
    let adaptive = replay_tally(&members, 8, 4096, true, &stream, 10_000);
    assert!(flat.members_present && adaptive.members_present);
    assert_eq!(flat.guard_len, 0);
    assert_eq!(flat.guard_bytes, 0);
    assert!(flat.fp_window > 0);
    // Each of the <= 200 distinct negatives is a false positive at most once.
    assert_eq!(adaptive.fp_window, 0);
    assert!(adaptive.guard_len <= 200);
    assert_eq!(adaptive.guard_bytes, adaptive.guard_len * 16);
    assert_eq!(adaptive.evictions, 0);
}

/// The window is clamped to the stream length.
#[test]
fn replay_window_is_clamped() {
    let t = replay_tally(&[1u64, 2, 3], 4, 8, true, &[NEG_TAG | 9, NEG_TAG | 10], 1_000);
    assert_eq!(t.window, 2);
    assert!(t.members_present);
    let t0 = replay_tally(&[1u64], 4, 8, true, &[NEG_TAG | 9], 0);
    assert_eq!(t0.window, 1);
}

/// A member marked by the stream (the caller broke the precondition) can be
/// suppressed, and the tally reports it.
#[test]
fn replay_reports_a_suppressed_member() {
    // One bucket, the member itself streamed: it tests present, gets marked,
    // and is then absent.
    let t = replay_tally(&[5u64], 1, 4, true, &[5u64], 1);
    assert_eq!(t.fp_window, 1);
    assert_eq!(t.guard_len, 1);
    assert!(!t.members_present);
}

/// The negative universe is the member set with the top bit set.
#[test]
fn negative_universe_is_tagged_member_set() {
    let members = member_set(2_000, 0x5151);
    let negatives = negative_universe(2_000, 0x5151);
    for i in 0..2_000 {
        assert_eq!(negatives[i], members[i] | NEG_TAG);
    }
}

/// Adaptation never counts more false positives than the flat run, and the
/// flat run leaves the guard untouched whatever its cap.
#[test]
fn adaptation_never_adds_positives() {
    let members = member_set(3_000, 0x61);
    let universe = negative_universe(5_000, 0x62);
    let stream = uniform_stream(&universe, 30_000, 0x63);
    let flat = replay_tally(&members, 16, 99, false, &stream, 30_000);
    let adaptive = replay_tally(&members, 16, 64, true, &stream, 30_000);
    assert!(adaptive.fp_window <= flat.fp_window);
    assert_eq!(flat.guard_len, 0);
    assert_eq!(flat.evictions, 0);
    assert!(adaptive.members_present);
}
