//! The xor-filter baseline that the blocked filter is measured against: an
//! `xorf` binary fuse filter with 8-bit fingerprints, and hit counting over a
//! probe stream for both filters.

use vstd::prelude::*;
use xorf::{BinaryFuse8, Filter};
use crate::blocked::BlockedFilter;

verus! {

#[verifier::external_type_specification]
#[verifier::external_body]
pub struct ExBinaryFuse8(BinaryFuse8);

/// The keys that a binary fuse filter reports present. `contains` reads only
/// the filter's seed, segment layout and fingerprints, so this is a function
/// of the filter value.
pub uninterp spec fn fuse8_members(f: BinaryFuse8) -> Set<u64>;

/// Whether xorf's binary fuse construction succeeds on `keys` (in this order).
/// The construction tries hash seeds from a fixed splitmix64 sequence (state 1)
/// and peels the resulting hypergraph; success depends on the keys alone, not
/// on the random filling of unused fingerprint slots.
pub uninterp spec fn fuse8_construction_succeeds(keys: Seq<u64>) -> bool;

/// The number of fingerprint bytes a binary fuse filter holds: the length of
/// its fingerprint array, fixed when the filter is built.
pub uninterp spec fn fuse8_fingerprint_count(f: BinaryFuse8) -> usize;

/// Whether, under every hash seed and segment layout that xorf's construction
/// may try on `keys`, no fingerprint slot collects 64 or more keys. The
/// construction keeps a `u8` counter per slot and adds 4 for each key hashed
/// into it, so only then do its counters stay exact.
pub uninterp spec fn fuse8_slot_counts_fit(keys: Seq<u64>) -> bool;

/// `<BinaryFuse8 as TryFrom<&Vec<u64>>>::try_from`: builds a filter from the
/// keys, retrying up to 1000 hash seeds.
///
/// Claimed: it returns `Ok` exactly when `fuse8_construction_succeeds` holds
/// of the keys, and a filter that is returned reports every key present (xorf
/// documents that its filters have no false negatives). Which other keys it
/// reports present is not stated. The claims are written under the per-slot
/// counter condition, which the requirements already demand.
///
/// Required: the keys are distinct (xorf's documented precondition, checked by
/// a debug assertion that panics); they fit the `u32` arithmetic of its layout
/// computation; and no slot's `u8` counter can overflow (fewer than 64 keys, or
/// `fuse8_slot_counts_fit`), since with overflow checks that addition panics.
#[verifier::external_body]
fn fuse8_try_from(keys: &Vec<u64>) -> (r: Result<BinaryFuse8, &'static str>)
    requires
        keys@.no_duplicates(),
        keys@.len() <= 0x8000_0000,
        keys@.len() < 64 || fuse8_slot_counts_fit(keys@),
    ensures
        (keys@.len() < 64 || fuse8_slot_counts_fit(keys@)) ==> (r is Ok
            == fuse8_construction_succeeds(keys@)),
        (keys@.len() < 64 || fuse8_slot_counts_fit(keys@)) ==> (r matches Ok(f) ==> forall|i: int|
            0 <= i < keys@.len() ==> #[trigger] fuse8_members(f).contains(keys@[i])),
{
    BinaryFuse8::try_from(keys)
}

/// `<BinaryFuse8 as Filter<u64>>::contains`: claimed to answer membership in
/// `fuse8_members` of the filter.
#[verifier::external_body]
fn fuse8_contains(f: &BinaryFuse8, key: u64) -> (r: bool)
    ensures
        r == fuse8_members(*f).contains(key),
{
    f.contains(&key)
}

/// `<BinaryFuse8 as Filter<u64>>::len`: claimed to return the length of the
/// filter's fingerprint array, named `fuse8_fingerprint_count`. Nothing more
/// is claimed of the number.
#[verifier::external_body]
fn fuse8_len(f: &BinaryFuse8) -> (r: usize)
    ensures
        r == fuse8_fingerprint_count(*f),
{
    f.len()
}

/// The baseline filter, with the keys it was built from.
pub struct FuseBaseline {
    filter: BinaryFuse8,
    keys: Ghost<Seq<u64>>,
}

impl FuseBaseline {
    /// The keys the filter was built from.
    pub closed spec fn keys(&self) -> Seq<u64> {
        self.keys@
    }

    /// The keys the filter reports present.
    pub closed spec fn members(&self) -> Set<u64> {
        fuse8_members(self.filter)
    }

    /// The number of fingerprint bytes the filter holds.
    pub closed spec fn fingerprint_count(&self) -> usize {
        fuse8_fingerprint_count(self.filter)
    }

    /// Every key the filter was built from is reported present.
    pub closed spec fn wf(&self) -> bool {
        forall|i: int| 0 <= i < self.keys@.len() ==> #[trigger] self.members().contains(self.keys@[i])
    }

    /// Build the baseline from distinct keys; `None` exactly when xorf's
    /// construction gives up on these keys.
    ///
    /// Required besides distinct keys: no fingerprint slot of xorf's collects
    /// 64 or more keys under a tried seed (`fuse8_slot_counts_fit`), which
    /// always holds of fewer than 64 keys; otherwise xorf's `u8` slot counter
    /// overflows. [`FuseBaseline::build_small`] checks the size and calls this.
    pub fn build(keys: &Vec<u64>) -> (r: Option<FuseBaseline>)
        requires
            keys@.no_duplicates(),
            keys@.len() <= 0x8000_0000,
            keys@.len() < 64 || fuse8_slot_counts_fit(keys@),
        ensures
            r is Some == fuse8_construction_succeeds(keys@),
            r matches Some(b) ==> b.wf() && b.keys() == keys@,
    {
        match fuse8_try_from(keys) {
            Ok(filter) => Some(FuseBaseline { filter, keys: Ghost(keys@) }),
            Err(_) => None,
        }
    }

    /// Build the baseline from distinct keys when there are fewer than 64 of
    /// them, so that xorf's slot counters cannot overflow; `None` for 64 keys
    /// or more, and `None` where xorf's construction gives up.
    pub fn build_small(keys: &Vec<u64>) -> (r: Option<FuseBaseline>)
        requires
            keys@.no_duplicates(),
        ensures
            keys@.len() >= 64 ==> r is None,
            keys@.len() < 64 ==> (r is Some == fuse8_construction_succeeds(keys@)),
            r matches Some(b) ==> b.wf() && b.keys() == keys@,
    {
        if keys.len() < 64 {
            Self::build(keys)
        } else {
            None
        }
    }

    /// Membership probe.
    pub fn contains(&self, key: u64) -> (r: bool)
        ensures
            r == self.members().contains(key),
    {
        fuse8_contains(&self.filter, key)
    }

    /// Number of fingerprint bytes held (space accounting).
    pub fn fingerprint_bytes(&self) -> (r: usize)
        ensures
            r == self.fingerprint_count(),
    {
        fuse8_len(&self.filter)
    }

    /// Number of probes that the baseline reports present.
    pub fn count_hits(&self, probes: &[u64]) -> (r: usize)
        ensures
            r == count_matching(probes@, self.members()),
    {
        let mut hits: usize = 0;
        let mut i: usize = 0;
        while i < probes.len()
            invariant
                i <= probes@.len(),
                hits == count_matching(probes@.take(i as int), self.members()),
                hits <= i,
            decreases probes@.len() - i,
        {
            proof {
                assert(probes@.take(i + 1).drop_last() == probes@.take(i as int));
            }
            if self.contains(probes[i]) {
                hits = hits + 1;
            }
            i = i + 1;
        }
        proof {
            assert(probes@.take(i as int) == probes@);
        }
        hits
    }
}

/// No false negatives in the baseline: a well-formed baseline reports every
/// key it was built from present.
pub proof fn lemma_baseline_no_false_negatives(b: FuseBaseline, i: int)
    requires
        b.wf(),
        0 <= i < b.keys().len(),
    ensures
        b.members().contains(b.keys()[i]),
{
}

/// How many elements of `probes` lie in `s`, counted with repetition.
pub open spec fn count_matching(probes: Seq<u64>, s: Set<u64>) -> nat
    decreases probes.len(),
{
    if probes.len() == 0 {
        0
    } else {
        count_matching(probes.drop_last(), s) + if s.contains(probes.last()) {
            1nat
        } else {
            0nat
        }
    }
}

/// Hit counting is additive: the count over two probe sequences one after the
/// other is the sum of their counts, and a single probe counts 1 exactly when
/// it lies in the set.
pub proof fn lemma_count_matching_additive(p: Seq<u64>, q: Seq<u64>, s: Set<u64>, x: u64)
    ensures
        count_matching(p + q, s) == count_matching(p, s) + count_matching(q, s),
        count_matching(seq![x], s) == if s.contains(x) {
            1nat
        } else {
            0nat
        },
    decreases q.len(),
{
    assert(seq![x].drop_last() =~= Seq::<u64>::empty());
    assert(count_matching(Seq::<u64>::empty(), s) == 0);
    assert(seq![x].last() == x);
    if q.len() == 0 {
        assert(p + q =~= p);
    } else {
        lemma_count_matching_additive(p, q.drop_last(), s, x);
        assert((p + q).drop_last() =~= p + q.drop_last());
        assert((p + q).last() == q.last());
    }
}

/// The keys a blocked filter reports present.
pub open spec fn blocked_members(f: &BlockedFilter) -> Set<u64> {
    Set::new(|k: u64| f@.contains(k))
}

/// Number of probes that the blocked filter reports present.
pub fn count_hits(f: &BlockedFilter, probes: &[u64]) -> (r: usize)
    requires
        f.wf(),
    ensures
        r == count_matching(probes@, blocked_members(f)),
{
    let mut hits: usize = 0;
    let mut i: usize = 0;
    while i < probes.len()
        invariant
            f.wf(),
            i <= probes@.len(),
            hits == count_matching(probes@.take(i as int), blocked_members(f)),
            hits <= i,
        decreases probes@.len() - i,
    {
        proof {
            assert(probes@.take(i + 1).drop_last() == probes@.take(i as int));
        }
        if f.contains(probes[i]) {
            hits = hits + 1;
        }
        i = i + 1;
    }
    proof {
        assert(probes@.take(i as int) == probes@);
    }
    hits
}

} // verus!
