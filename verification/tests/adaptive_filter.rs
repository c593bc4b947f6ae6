use ribbonguard::{AdaptiveFilter, SplitMix64};

/// Members always present, even after marking many confirmed non-members.
#[test]
fn members_survive_arbitrary_marks() {
    let mut f = AdaptiveFilter::with_buckets(32, 16);
    let members: Vec<u64> = (0..500).collect();
    for &m in &members {
        f.insert(m);
    }
    // Mark a pile of confirmed non-members (disjoint high domain).
    for nm in 1_000_000u64..1_002_000 {
        f.mark_false_positive(nm);
        // A cheap running check on a couple of members after each event.
        assert!(f.contains(0));
        assert!(f.contains(499));
    }
    // Full sweep: nothing marked could have suppressed a member.
    for &m in &members {
        assert!(f.contains(m), "false negative for member {m}");
    }
    // Cap respected.
    assert!(f.guard_len() <= f.cap());
    assert!(f.evictions() > 0, "cap of 16 vs 2000 marks must evict");
}

/// Marking an actual base false positive suppresses it, without disturbing
/// members that share its bucket.
#[test]
fn suppresses_a_real_false_positive() {
    let mut f = AdaptiveFilter::with_buckets(64, 4096);
    let members: Vec<u64> = (0..2000).collect();
    for &m in &members {
        f.insert(m);
    }
    // Find a confirmed non-member the base reports present (a real FP).
    let mut rng = SplitMix64::new(0x9);
    let mut found = None;
    for _ in 0..1_000_000 {
        let cand = 10_000_000 + (rng.next_u64() % 10_000_000);
        if !members.contains(&cand) && f.contains(cand) {
            found = Some(cand);
            break;
        }
    }
    let fp = found.expect("should find at least one false positive");
    assert!(f.contains(fp), "precondition: fp reads present before marking");
    f.mark_false_positive(fp);
    assert!(!f.contains(fp), "marked FP must now be suppressed");
    // And every member is still present.
    for &m in &members {
        assert!(f.contains(m), "false negative for member {m} after suppression");
    }
}

/// `cap == 0` disables adaptation: marks are no-ops, base semantics intact.
#[test]
fn zero_cap_disables_adaptation() {
    let mut f = AdaptiveFilter::with_buckets(8, 0);
    f.insert(42);
    f.mark_false_positive(1_000);
    assert_eq!(f.guard_len(), 0);
    assert_eq!(f.marks(), 0);
    assert!(f.contains(42));
}

/// The guard is first-in first-out: at cap 2, a third mark evicts the first.
#[test]
fn guard_evicts_oldest_first() {
    let mut f = AdaptiveFilter::with_buckets(1, 2);
    for k in 0u64..300 {
        f.insert(k);
    }
    // With one bucket saturated, these probes read present in the base.
    let a = 1_000_001u64;
    let b = 1_000_002u64;
    let c = 1_000_003u64;
    f.mark_false_positive(a);
    f.mark_false_positive(b);
    assert_eq!(f.guard_len(), 2);
    assert_eq!(f.guard_bytes(), 32);
    f.mark_false_positive(c);
    assert_eq!(f.guard_len(), 2);
    assert_eq!(f.evictions(), 1);
    assert_eq!(f.marks(), 3);
    // `a` left the guard; `b` and `c` are suppressed.
    assert_eq!(f.contains(a), f.base().contains(a));
    assert!(!f.contains(b));
    assert!(!f.contains(c));
}

/// Re-marking a guarded key is a no-op: no new mark, no eviction.
#[test]
fn remarking_is_idempotent() {
    let mut f = AdaptiveFilter::with_buckets(4, 3);
    f.mark_false_positive(77);
    f.mark_false_positive(77);
    assert_eq!(f.marks(), 1);
    assert_eq!(f.guard_len(), 1);
    assert_eq!(f.evictions(), 0);
    assert!(!f.contains(77));
}

/// marks == evictions + guard_len after any sequence of marks.
#[test]
fn marks_balance_evictions_and_guard() {
    let mut f = AdaptiveFilter::with_buckets(16, 5);
    for k in 0u64..40 {
        f.mark_false_positive(k % 13);
        assert_eq!(f.marks(), f.evictions() + f.guard_len() as u64);
        assert!(f.guard_len() <= f.cap());
    }
}

/// Inserting never touches the guard.
#[test]
fn insert_leaves_guard_alone() {
    let mut f = AdaptiveFilter::with_buckets(4, 8);
    f.mark_false_positive(5);
    f.insert(6);
    f.insert(7);
    assert_eq!(f.guard_len(), 1);
    assert_eq!(f.base().len(), 2);
    assert!(f.contains(6) && f.contains(7));
}

/// The base of an adaptive filter is the plain filter with the same inserts.
#[test]
fn base_matches_plain_filter() {
    let mut f = AdaptiveFilter::with_buckets(2, 3);
    let mut plain = ribbonguard::BlockedFilter::with_buckets(2);
    for k in 0u64..100 {
        f.insert(k);
        plain.insert(k);
        f.mark_false_positive(1_000 + k);
    }
    assert_eq!(f.base().len(), plain.len());
    assert_eq!(f.base().overflow_len(), plain.overflow_len());
    for x in 0u64..2_000 {
        assert_eq!(f.base().contains(x), plain.contains(x));
    }
}

/// The guard size is min(marks, cap) and evictions are the marks that no
/// longer fit.
#[test]
fn guard_len_is_min_of_marks_and_cap() {
    let mut f = AdaptiveFilter::with_buckets(4, 7);
    for k in 0u64..20 {
        f.mark_false_positive(k);
        let marks = f.marks();
        assert_eq!(f.guard_len() as u64, marks.min(7));
        assert_eq!(f.evictions(), marks - marks.min(7));
    }
}
