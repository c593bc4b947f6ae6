//! The blocked (bucketed) approximate-membership filter.
//!
//! A key is routed to one bucket of `SLOTS` one-byte fingerprint slots. A bucket
//! stores each fingerprint at most once, in its first empty slot; a key whose
//! bucket is full and does not hold its fingerprint goes to an overflow set, which
//! `contains` consults after a miss. A full bucket therefore never drops a key.

use std::collections::HashSet;
use vstd::prelude::*;
use crate::mixing::{mix, mix_spec, unmix, lemma_mix_surjective};

verus! {

broadcast use vstd::std_specs::hash::group_hash_axioms;

/// Slots per bucket: sixteen one-byte fingerprints, one 16-byte line.
pub const SLOTS: usize = 16;

/// The bucket that `key` is routed to in a filter of `n_buckets` buckets:
/// the high 32 bits of the mixed key, reduced modulo the bucket count.
pub open spec fn bucket_of(key: u64, n_buckets: nat) -> nat {
    ((mix_spec(key) >> 32u64) as nat) % n_buckets
}

/// The nonzero fingerprint of `key`: the low byte of the mixed key, with 0
/// (the empty-slot marker) mapped to 255.
pub open spec fn fingerprint_of(key: u64) -> u8 {
    let b = (mix_spec(key) & 0xFFu64) as u8;
    if b == 0 {
        0xFFu8
    } else {
        b
    }
}

/// The index of the first occurrence of `v` in `s` (meaningful when `s` holds `v`).
pub open spec fn first_index_of(s: Seq<u8>, v: u8) -> int {
    choose|i: int| 0 <= i < s.len() && s[i] == v && forall|j: int| 0 <= j < i ==> s[j] != v
}

/// The abstract state of a blocked filter.
pub struct FilterModel {
    /// All fingerprint slots, bucket after bucket (0 marks an empty slot).
    pub slots: Seq<u8>,
    /// Number of buckets.
    pub n_buckets: nat,
    /// Keys whose full bucket could not take their fingerprint.
    pub overflow: Set<u64>,
    /// Number of insert calls so far.
    pub len: nat,
}

impl FilterModel {
    /// A filter of `n_buckets` empty buckets.
    pub open spec fn empty(n_buckets: nat) -> FilterModel {
        FilterModel {
            slots: Seq::new(n_buckets * 16, |i: int| 0u8),
            n_buckets,
            overflow: Set::empty(),
            len: 0,
        }
    }

    /// The shape every reachable filter has.
    pub open spec fn wf(self) -> bool {
        &&& self.n_buckets > 0
        &&& self.slots.len() == self.n_buckets * 16
        &&& self.n_buckets * 16 <= usize::MAX
        &&& self.overflow.finite()
    }

    /// Index of the first slot of the bucket that `key` is routed to.
    pub open spec fn base_of(self, key: u64) -> int {
        (bucket_of(key, self.n_buckets) * 16) as int
    }

    /// The sixteen slots of the bucket that `key` is routed to.
    pub open spec fn bucket(self, key: u64) -> Seq<u8> {
        self.slots.subrange(self.base_of(key), self.base_of(key) + 16)
    }

    /// Membership: the key's bucket holds its fingerprint, or the key overflowed.
    pub open spec fn contains(self, key: u64) -> bool {
        self.bucket(key).contains(fingerprint_of(key)) || self.overflow.contains(key)
    }

    /// The filter after inserting `key`.
    pub open spec fn insert(self, key: u64) -> FilterModel {
        let b = self.bucket(key);
        let fp = fingerprint_of(key);
        if b.contains(fp) {
            FilterModel { len: self.len + 1, ..self }
        } else if b.contains(0u8) {
            FilterModel {
                slots: self.slots.update(self.base_of(key) + first_index_of(b, 0u8), fp),
                len: self.len + 1,
                ..self
            }
        } else {
            FilterModel { overflow: self.overflow.insert(key), len: self.len + 1, ..self }
        }
    }

    /// The filter after inserting every key of `keys`, in order.
    pub open spec fn insert_all(self, keys: Seq<u64>) -> FilterModel
        decreases keys.len(),
    {
        if keys.len() == 0 {
            self
        } else {
            self.insert_all(keys.drop_last()).insert(keys.last())
        }
    }
}

/// A fingerprint is never the empty-slot marker.
pub proof fn lemma_fingerprint_nonzero(key: u64)
    ensures
        fingerprint_of(key) != 0u8,
{
}

/// Inserting `key` into a well-formed filter keeps it well formed, makes `key`
/// test present, keeps `other` present if it was, and counts one more insert.
pub proof fn lemma_insert_keeps_members(m: FilterModel, key: u64, other: u64)
    requires
        m.wf(),
    ensures
        m.insert(key).wf(),
        m.insert(key).contains(key),
        m.contains(other) ==> m.insert(key).contains(other),
        m.insert(key).len == m.len + 1,
        m.insert(key).n_buckets == m.n_buckets,
{
    let n = m.n_buckets;
    let b = m.bucket(key);
    let fp = fingerprint_of(key);
    let base = m.base_of(key);
    let m2 = m.insert(key);
    assert(bucket_of(key, n) < n);
    assert(bucket_of(other, n) < n);
    assert(0 <= base && base + 16 <= m.slots.len()) by (nonlinear_arith)
        requires
            base == bucket_of(key, n) * 16,
            bucket_of(key, n) < n,
            m.slots.len() == n * 16,
    ;
    let obase = m.base_of(other);
    assert(0 <= obase && obase + 16 <= m.slots.len()) by (nonlinear_arith)
        requires
            obase == bucket_of(other, n) * 16,
            bucket_of(other, n) < n,
            m.slots.len() == n * 16,
    ;
    lemma_fingerprint_nonzero(other);
    if b.contains(fp) {
        assert(m2.bucket(key) == b);
        assert(m2.bucket(other) == m.bucket(other));
    } else if b.contains(0u8) {
        let w = first_index_of(b, 0u8);
        let idx = base + w;
        assert(0 <= w < 16 && b[w] == 0u8);
        let b2 = m2.bucket(key);
        assert(b2[w] == fp);
        assert(m2.slots.len() == m.slots.len());
        if m.contains(other) {
            let ob = m.bucket(other);
            let ob2 = m2.bucket(other);
            let ofp = fingerprint_of(other);
            if ob.contains(ofp) {
                let j = choose|j: int| 0 <= j < ob.len() && ob[j] == ofp;
                assert(ob[j] == m.slots[obase + j]);
                assert(obase + j != idx);
                assert(ob2[j] == ofp);
            } else {
                assert(m2.overflow.contains(other));
            }
        }
    } else {
        assert(m2.bucket(key) == b);
        assert(m2.bucket(other) == m.bucket(other));
    }
}

/// No false negatives: after inserting the keys of `keys` in order into a
/// well-formed filter, every one of them tests present, every key that tested
/// present before still does, and the insert count grew by `keys.len()`.
pub proof fn lemma_no_false_negatives(m: FilterModel, keys: Seq<u64>)
    requires
        m.wf(),
    ensures
        m.insert_all(keys).wf(),
        m.insert_all(keys).n_buckets == m.n_buckets,
        m.insert_all(keys).len == m.len + keys.len(),
        forall|i: int| 0 <= i < keys.len() ==> m.insert_all(keys).contains(#[trigger] keys[i]),
        forall|k: u64| m.contains(k) ==> m.insert_all(keys).contains(k),
    decreases keys.len(),
{
    if keys.len() > 0 {
        let prefix = keys.drop_last();
        lemma_no_false_negatives(m, prefix);
        let mid = m.insert_all(prefix);
        let last = keys.last();
        assert forall|i: int| 0 <= i < keys.len() implies m.insert_all(keys).contains(
            #[trigger] keys[i],
        ) by {
            lemma_insert_keeps_members(mid, last, keys[i]);
            if i < keys.len() - 1 {
                assert(keys[i] == prefix[i]);
            }
        }
        assert forall|k: u64| m.contains(k) implies m.insert_all(keys).contains(k) by {
            lemma_insert_keeps_members(mid, last, k);
        }
        lemma_insert_keeps_members(mid, last, last);
    }
}

/// Re-inserting a key changes nothing but the insert count.
pub proof fn lemma_reinsert_changes_only_len(m: FilterModel, key: u64)
    requires
        m.wf(),
    ensures
        m.insert(key).insert(key) == (FilterModel { len: m.insert(key).len + 1, ..m.insert(key) }),
{
    lemma_insert_keeps_members(m, key, key);
    let m1 = m.insert(key);
    let b = m.bucket(key);
    let fp = fingerprint_of(key);
    if !b.contains(fp) && !b.contains(0u8) {
        assert(m1.bucket(key) == b);
        assert(m1.overflow.insert(key) =~= m1.overflow);
    } else if !b.contains(fp) {
        let w = first_index_of(b, 0u8);
        assert(m1.bucket(key)[w] == fp);
    }
}

/// The fingerprints of the keys of `keys` that are routed to bucket `b` of `n`.
pub open spec fn bucket_fingerprints(keys: Seq<u64>, n: nat, b: nat) -> Set<u8> {
    Set::new(
        |f: u8|
            exists|i: int|
                0 <= i < keys.len() && bucket_of(keys[i], n) == b && fingerprint_of(keys[i]) == f,
    )
}

/// Slot `j` of bucket `b`.
spec fn slot(m: FilterModel, b: int, j: int) -> u8 {
    m.slots[b * 16 + j]
}

/// What a filter built by inserting `keys` into empty buckets holds: within a
/// bucket no fingerprint is stored twice; every stored fingerprint is that of
/// an inserted key routed to that bucket; and every overflow key was inserted
/// and found its bucket full without its fingerprint.
spec fn holds_history(m: FilterModel, keys: Seq<u64>) -> bool {
    &&& forall|b: int, j1: int, j2: int|
        0 <= b < m.n_buckets && 0 <= j1 < 16 && 0 <= j2 < 16 && j1 != j2 && #[trigger] slot(m, b, j1)
            != 0 ==> slot(m, b, j1) != #[trigger] slot(m, b, j2)
    &&& forall|b: int, j: int|
        0 <= b < m.n_buckets && 0 <= j < 16 && #[trigger] slot(m, b, j) != 0 ==> exists|i: int|
            0 <= i < keys.len() && bucket_of(keys[i], m.n_buckets) == b && fingerprint_of(keys[i])
                == slot(m, b, j)
    &&& forall|k: u64| #[trigger]
        m.overflow.contains(k) ==> (exists|i: int| 0 <= i < keys.len() && keys[i] == k) && forall|
            j: int,
        | 0 <= j < 16 ==> slot(m, bucket_of(k, m.n_buckets) as int, j) != 0 && slot(
            m,
            bucket_of(k, m.n_buckets) as int,
            j,
        ) != fingerprint_of(k)
}

/// Extending a history by a key whose fingerprint is already in its bucket
/// keeps the history held.
proof fn lemma_history_step_present(m: FilterModel, p: Seq<u64>, key: u64)
    requires
        m.wf(),
        holds_history(m, p),
        m.bucket(key).contains(fingerprint_of(key)),
    ensures
        holds_history(m.insert(key), p.push(key)),
{
    let n = m.n_buckets;
    let keys = p.push(key);
    let m2 = m.insert(key);
    assert(m2.slots == m.slots && m2.overflow == m.overflow && m2.n_buckets == n);
    assert forall|b: int, j: int| slot(m2, b, j) == slot(m, b, j) by {}
    assert forall|k: u64| #[trigger] m2.overflow.contains(k) implies (exists|i: int|
        0 <= i < keys.len() && keys[i] == k) by {
        let i = choose|i: int| 0 <= i < p.len() && p[i] == k;
        assert(keys[i] == k);
    }
    assert forall|b: int, j: int|
        0 <= b < n && 0 <= j < 16 && #[trigger] slot(m2, b, j) != 0 implies exists|i: int|
        0 <= i < keys.len() && bucket_of(keys[i], n) == b && fingerprint_of(keys[i]) == slot(m2, b, j) by {
        let i = choose|i: int|
            0 <= i < p.len() && bucket_of(p[i], n) == b && fingerprint_of(p[i]) == slot(m, b, j);
        assert(keys[i] == p[i]);
    }
}

/// Extending a history by a key whose bucket is full without its fingerprint
/// keeps the history held.
proof fn lemma_history_step_overflow(m: FilterModel, p: Seq<u64>, key: u64)
    requires
        m.wf(),
        holds_history(m, p),
        !m.bucket(key).contains(0u8),
        !m.bucket(key).contains(fingerprint_of(key)),
    ensures
        holds_history(m.insert(key), p.push(key)),
{
    let n = m.n_buckets;
    let keys = p.push(key);
    let m2 = m.insert(key);
    let bk = bucket_of(key, n) as int;
    let bs = m.bucket(key);
    let fp = fingerprint_of(key);
    assert(bk < n);
    assert(m2.slots == m.slots && m2.overflow == m.overflow.insert(key) && m2.n_buckets == n);
    assert forall|b: int, j: int| slot(m2, b, j) == slot(m, b, j) by {}
    assert forall|j: int| 0 <= j < 16 implies slot(m, bk, j) == bs[j] by {}
    assert forall|k: u64| #[trigger] m2.overflow.contains(k) implies (exists|i: int|
        0 <= i < keys.len() && keys[i] == k) by {
        if k == key {
            assert(keys[keys.len() - 1] == key);
        } else {
            let i = choose|i: int| 0 <= i < p.len() && p[i] == k;
            assert(keys[i] == k);
        }
    }
    assert forall|k: u64| #[trigger] m2.overflow.contains(k) implies forall|j: int|
        0 <= j < 16 ==> slot(m2, bucket_of(k, n) as int, j) != 0 && slot(
            m2,
            bucket_of(k, n) as int,
            j,
        ) != fingerprint_of(k) by {
        if k == key {
            assert forall|j: int| 0 <= j < 16 implies slot(m2, bk, j) != 0 && slot(m2, bk, j) != fp by {
                assert(slot(m, bk, j) == bs[j]);
            }
        }
    }
    assert forall|b: int, j: int|
        0 <= b < n && 0 <= j < 16 && #[trigger] slot(m2, b, j) != 0 implies exists|i: int|
        0 <= i < keys.len() && bucket_of(keys[i], n) == b && fingerprint_of(keys[i]) == slot(m2, b, j) by {
        let i = choose|i: int|
            0 <= i < p.len() && bucket_of(p[i], n) == b && fingerprint_of(p[i]) == slot(m, b, j);
        assert(keys[i] == p[i]);
    }
}

/// Extending a history by a key that takes the first empty slot of its bucket
/// keeps the history held.
proof fn lemma_history_step_slot_filled(m: FilterModel, p: Seq<u64>, key: u64)
    requires
        m.wf(),
        holds_history(m, p),
        m.bucket(key).contains(0u8),
        !m.bucket(key).contains(fingerprint_of(key)),
    ensures
        holds_history(m.insert(key), p.push(key)),
{
    let n = m.n_buckets;
    let keys = p.push(key);
    let m2 = m.insert(key);
    let bk = bucket_of(key, n) as int;
    let bs = m.bucket(key);
    let fp = fingerprint_of(key);
    lemma_fingerprint_nonzero(key);
    assert(bk < n);
    assert forall|i: int| 0 <= i < p.len() implies keys[i] == p[i] by {}
    let w = first_index_of(bs, 0u8);
    assert(0 <= w < 16 && bs[w] == 0u8);
    let idx = bk * 16 + w;
    assert(m2.slots == m.slots.update(idx, fp));
    assert(0 <= idx < m.slots.len()) by (nonlinear_arith)
        requires
            0 <= bk < n,
            0 <= w < 16,
            m.slots.len() == n * 16,
            idx == bk * 16 + w,
    ;
    assert forall|b: int, j: int| 0 <= b < n && 0 <= j < 16 implies slot(m2, b, j) == (if b == bk
        && j == w {
        fp
    } else {
        slot(m, b, j)
    }) by {
        if b != bk || j != w {
            assert(b * 16 + j != idx) by (nonlinear_arith)
                requires
                    b != bk || j != w,
                    0 <= j < 16,
                    0 <= w < 16,
                    idx == bk * 16 + w,
            ;
        }
        assert(0 <= b * 16 + j < n * 16) by (nonlinear_arith)
            requires
                0 <= b < n,
                0 <= j < 16,
        ;
    }
    assert forall|j: int| 0 <= j < 16 implies slot(m, bk, j) == bs[j] by {}
    assert forall|b: int, j1: int, j2: int|
        0 <= b < n && 0 <= j1 < 16 && 0 <= j2 < 16 && j1 != j2 && #[trigger] slot(m2, b, j1)
            != 0 implies slot(m2, b, j1) != #[trigger] slot(m2, b, j2) by {
        if b == bk && j2 == w {
            assert(slot(m, b, j1) == bs[j1]);
        } else if b == bk && j1 == w {
            assert(slot(m, b, j2) == bs[j2]);
        } else {
            assert(slot(m, b, j1) != 0 ==> slot(m, b, j1) != slot(m, b, j2));
        }
    }
    assert forall|b: int, j: int|
        0 <= b < n && 0 <= j < 16 && #[trigger] slot(m2, b, j) != 0 implies exists|i: int|
        0 <= i < keys.len() && bucket_of(keys[i], n) == b && fingerprint_of(keys[i]) == slot(m2, b, j) by {
        if b == bk && j == w {
            assert(keys[keys.len() - 1] == key);
        } else {
            assert(slot(m, b, j) == slot(m2, b, j));
            let i = choose|i: int|
                0 <= i < p.len() && bucket_of(p[i], n) == b && fingerprint_of(p[i]) == slot(m, b, j);
            assert(keys[i] == p[i]);
        }
    }
    assert forall|k: u64| #[trigger] m2.overflow.contains(k) implies (exists|i: int|
        0 <= i < keys.len() && keys[i] == k) && forall|j: int|
        0 <= j < 16 ==> slot(m2, bucket_of(k, n) as int, j) != 0 && slot(
            m2,
            bucket_of(k, n) as int,
            j,
        ) != fingerprint_of(k) by {
        let i = choose|i: int| 0 <= i < p.len() && p[i] == k;
        assert(keys[i] == k);
        let bo = bucket_of(k, n) as int;
        assert(bo < n);
        if bo == bk {
            assert(slot(m, bk, w) != 0);
            assert(slot(m, bk, w) == bs[w]);
        }
    }
}

/// A filter built from empty buckets holds its insert history.
proof fn lemma_holds_history(n: nat, keys: Seq<u64>)
    requires
        FilterModel::empty(n).wf(),
    ensures
        holds_history(FilterModel::empty(n).insert_all(keys), keys),
    decreases keys.len(),
{
    let e = FilterModel::empty(n);
    if keys.len() == 0 {
        assert forall|b: int, j: int| 0 <= b < n && 0 <= j < 16 implies slot(e, b, j) == 0 by {
            assert(0 <= b * 16 + j < n * 16) by (nonlinear_arith)
                requires
                    0 <= b < n,
                    0 <= j < 16,
            ;
        }
    } else {
        let p = keys.drop_last();
        let key = keys.last();
        lemma_holds_history(n, p);
        lemma_no_false_negatives(e, p);
        let m = e.insert_all(p);
        assert(keys == p.push(key));
        if m.bucket(key).contains(fingerprint_of(key)) {
            lemma_history_step_present(m, p, key);
        } else if m.bucket(key).contains(0u8) {
            lemma_history_step_slot_filled(m, p, key);
        } else {
            lemma_history_step_overflow(m, p, key);
        }
    }
}

/// Every key that a filter built from `keys` reports present shares its
/// bucket and its fingerprint with an inserted key; an empty history reports
/// nothing present.
pub proof fn lemma_positives_share_bucket_and_fingerprint(n: nat, keys: Seq<u64>, x: u64)
    requires
        FilterModel::empty(n).wf(),
        FilterModel::empty(n).insert_all(keys).contains(x),
    ensures
        exists|i: int|
            0 <= i < keys.len() && bucket_of(#[trigger] keys[i], n) == bucket_of(x, n) && fingerprint_of(
                keys[i],
            ) == fingerprint_of(x),
{
    lemma_holds_history(n, keys);
    lemma_no_false_negatives(FilterModel::empty(n), keys);
    let m = FilterModel::empty(n).insert_all(keys);
    let bx = bucket_of(x, n) as int;
    assert(bx < n);
    if m.overflow.contains(x) {
        let i = choose|i: int| 0 <= i < keys.len() && keys[i] == x;
        assert(bucket_of(keys[i], n) == bucket_of(x, n));
    } else {
        let bs = m.bucket(x);
        let j = choose|j: int| 0 <= j < bs.len() && bs[j] == fingerprint_of(x);
        assert(slot(m, bx, j) == bs[j]);
        lemma_fingerprint_nonzero(x);
        let i = choose|i: int|
            0 <= i < keys.len() && bucket_of(keys[i], n) == bx && fingerprint_of(keys[i]) == slot(m, bx, j);
        assert(bucket_of(keys[i], n) == bucket_of(x, n));
    }
}

/// The fingerprints routed to one bucket form a finite set.
proof fn lemma_bucket_fingerprints_finite(keys: Seq<u64>, n: nat, b: nat)
    ensures
        bucket_fingerprints(keys, n, b).finite(),
{
    let all = keys.map_values(|k: u64| fingerprint_of(k)).to_set();
    assert(bucket_fingerprints(keys, n, b).subset_of(all)) by {
        assert forall|f: u8| bucket_fingerprints(keys, n, b).contains(f) implies all.contains(f) by {
            let i = choose|i: int|
                0 <= i < keys.len() && bucket_of(keys[i], n) == b && fingerprint_of(keys[i]) == f;
            assert(keys.map_values(|k: u64| fingerprint_of(k))[i] == f);
        }
    }
    vstd::set_lib::lemma_len_subset(bucket_fingerprints(keys, n, b), all);
}

/// Overflow engages exactly when some bucket is routed more than sixteen
/// distinct fingerprints: a filter built by inserting `keys` into empty buckets
/// has a non-empty overflow set if and only if some bucket's fingerprints
/// among `keys` number more than `SLOTS`.
pub proof fn lemma_overflow_engages(n: nat, keys: Seq<u64>)
    requires
        FilterModel::empty(n).wf(),
    ensures
        (FilterModel::empty(n).insert_all(keys).overflow.len() > 0) <==> exists|b: nat|
            b < n && #[trigger] bucket_fingerprints(keys, n, b).len() > 16,
{
    let e = FilterModel::empty(n);
    lemma_holds_history(n, keys);
    lemma_no_false_negatives(e, keys);
    let m = e.insert_all(keys);
    if m.overflow.len() > 0 {
        assert(!m.overflow.is_empty()) by {
            if m.overflow.is_empty() {
                assert(m.overflow =~= Set::<u64>::empty());
            }
        }
        let k = m.overflow.choose();
        let b = bucket_of(k, n);
        assert(b < n);
        let bs = m.bucket(k);
        assert forall|j: int| 0 <= j < 16 implies bs[j] == slot(m, b as int, j) by {}
        assert(bs.no_duplicates()) by {
            assert forall|j1: int, j2: int| 0 <= j1 < bs.len() && 0 <= j2 < bs.len() && j1 != j2 implies bs[j1]
                != bs[j2] by {
                assert(slot(m, b as int, j1) != 0);
                assert(slot(m, b as int, j1) != slot(m, b as int, j2));
            }
        }
        bs.unique_seq_to_set();
        let fps = bucket_fingerprints(keys, n, b);
        lemma_bucket_fingerprints_finite(keys, n, b);
        let big = bs.to_set().insert(fingerprint_of(k));
        assert(!bs.to_set().contains(fingerprint_of(k))) by {
            if bs.contains(fingerprint_of(k)) {
                let j = choose|j: int| 0 <= j < bs.len() && bs[j] == fingerprint_of(k);
                assert(slot(m, b as int, j) != fingerprint_of(k));
            }
        }
        assert(big.subset_of(fps)) by {
            assert forall|f: u8| big.contains(f) implies fps.contains(f) by {
                if f == fingerprint_of(k) {
                    let i = choose|i: int| 0 <= i < keys.len() && keys[i] == k;
                    assert(bucket_of(keys[i], n) == b);
                } else {
                    let j = choose|j: int| 0 <= j < bs.len() && bs[j] == f;
                    assert(slot(m, b as int, j) != 0);
                    let i = choose|i: int|
                        0 <= i < keys.len() && bucket_of(keys[i], n) == b && fingerprint_of(keys[i])
                            == slot(m, b as int, j);
                }
            }
        }
        vstd::set_lib::lemma_len_subset(big, fps);
        assert(bucket_fingerprints(keys, n, b).len() > 16);
    }
    if exists|b: nat| b < n && #[trigger] bucket_fingerprints(keys, n, b).len() > 16 {
        let b = choose|b: nat| b < n && #[trigger] bucket_fingerprints(keys, n, b).len() > 16;
        let fps = bucket_fingerprints(keys, n, b);
        lemma_bucket_fingerprints_finite(keys, n, b);
        let bs = m.slots.subrange((b * 16) as int, (b * 16 + 16) as int);
        assert(0 <= b * 16 && b * 16 + 16 <= m.slots.len()) by (nonlinear_arith)
            requires
                b < n,
                m.slots.len() == n * 16,
        ;
        bs.lemma_cardinality_of_set();
        assert(!fps.subset_of(bs.to_set())) by {
            if fps.subset_of(bs.to_set()) {
                vstd::set_lib::lemma_len_subset(fps, bs.to_set());
            }
        }
        let f = choose|f: u8| fps.contains(f) && !bs.to_set().contains(f);
        let i = choose|i: int|
            0 <= i < keys.len() && bucket_of(keys[i], n) == b && fingerprint_of(keys[i]) == f;
        let k = keys[i];
        assert(m.contains(k));
        assert(m.bucket(k) == bs);
        assert(m.overflow.contains(k));
        assert(m.overflow.len() > 0) by {
            if m.overflow.len() == 0 {
                assert(m.overflow =~= Set::<u64>::empty());
            }
        }
    }
}

/// A filter built from at most sixteen distinct keys never overflows.
pub proof fn lemma_few_keys_never_overflow(n: nat, keys: Seq<u64>)
    requires
        FilterModel::empty(n).wf(),
        keys.to_set().len() <= 16,
    ensures
        FilterModel::empty(n).insert_all(keys).overflow.len() == 0,
{
    lemma_overflow_engages(n, keys);
    let fpf = |k: u64| fingerprint_of(k);
    let img = keys.to_set().map(fpf);
    vstd::set_lib::lemma_map_size_bound(keys.to_set(), img, fpf);
    assert forall|b: nat| b < n implies #[trigger] bucket_fingerprints(keys, n, b).len() <= 16 by {
        assert(bucket_fingerprints(keys, n, b).subset_of(img)) by {
            assert forall|f: u8| bucket_fingerprints(keys, n, b).contains(f) implies img.contains(f) by {
                let i = choose|i: int|
                    0 <= i < keys.len() && bucket_of(keys[i], n) == b && fingerprint_of(keys[i]) == f;
                assert(keys.to_set().contains(keys[i]));
                assert(fpf(keys[i]) == f);
            }
        }
        vstd::set_lib::lemma_len_subset(bucket_fingerprints(keys, n, b), img);
    }
}

/// A mixed value carrying bucket bits `b` above bit 32 and low byte `f`.
proof fn lemma_routing_bits(b: u64, f: u64)
    by (bit_vector)
    requires
        b < 0x1_0000_0000u64,
        f < 0x100u64,
    ensures
        (((b << 32u64) | f) >> 32u64) == b,
        (((b << 32u64) | f) & 0xFFu64) == f,
{
}

/// Routing and fingerprinting are independent and reach everything: for any
/// bucket count up to 2^32, every bucket `b` and every nonzero fingerprint `f`,
/// some key is routed to `b` and carries `f`. (The bucket comes from the high 32
/// bits of the mixed key, the fingerprint from its low byte.)
pub proof fn lemma_every_bucket_and_fingerprint_reachable(n_buckets: nat, b: nat, f: u8)
    requires
        0 < n_buckets <= 0x1_0000_0000,
        b < n_buckets,
        f != 0u8,
    ensures
        exists|k: u64| bucket_of(k, n_buckets) == b && #[trigger] fingerprint_of(k) == f,
{
    let y: u64 = ((b as u64) << 32u64) | (f as u64);
    lemma_routing_bits(b as u64, f as u64);
    let k = unmix(y);
    lemma_mix_surjective(y);
    assert(mix_spec(k) == y);
    vstd::arithmetic::div_mod::lemma_small_mod(b, n_buckets);
    assert(((mix_spec(k) >> 32u64) as nat) % n_buckets == b);
    assert(fingerprint_of(k) == f);
}

/// Blocked approximate-membership filter.
pub struct BlockedFilter {
    /// Flat fingerprint store: `n_buckets * SLOTS` bytes, contiguous.
    slots: Vec<u8>,
    n_buckets: usize,
    /// Keys evicted from full buckets; checked only on a bucket miss.
    overflow: HashSet<u64>,
    len: usize,
}

impl View for BlockedFilter {
    type V = FilterModel;

    closed spec fn view(&self) -> FilterModel {
        FilterModel {
            slots: self.slots@,
            n_buckets: self.n_buckets as nat,
            overflow: self.overflow@,
            len: self.len as nat,
        }
    }
}

impl BlockedFilter {
    /// Well-formedness: the abstract state has the shape of a reachable filter.
    pub open spec fn wf(&self) -> bool {
        self@.wf()
    }

    /// Create a filter with `n_buckets` empty buckets (`n_buckets * SLOTS` bytes).
    pub fn with_buckets(n_buckets: usize) -> (r: Self)
        requires
            n_buckets > 0,
            n_buckets <= usize::MAX / SLOTS,
        ensures
            r.wf(),
            r@ == FilterModel::empty(n_buckets as nat),
    {
        let slots = vec![0u8; n_buckets * SLOTS];
        let r = Self { slots, n_buckets, overflow: HashSet::new(), len: 0 };
        assert(r@.slots =~= FilterModel::empty(n_buckets as nat).slots);
        r
    }

    /// Bucket index and nonzero fingerprint of `key`.
    fn locate(&self, key: u64) -> (r: (usize, u8))
        requires
            self.wf(),
        ensures
            r.0 as nat == bucket_of(key, self@.n_buckets),
            r.0 < self@.n_buckets,
            r.1 == fingerprint_of(key),
    {
        let h = mix(key);
        assert(h >> 32u64 <= 0xFFFF_FFFFu64) by (bit_vector);
        assert(h & 0xFFu64 <= 0xFFu64) by (bit_vector);
        let bucket = ((h >> 32u64) as usize) % self.n_buckets;
        let b = (h & 0xFFu64) as u8;
        let fp = if b == 0 {
            0xFFu8
        } else {
            b
        };
        (bucket, fp)
    }

    /// Insert a key. Afterwards the key tests present, and so does every key
    /// that tested present before.
    pub fn insert(&mut self, key: u64)
        requires
            old(self).wf(),
            old(self)@.len < usize::MAX,
        ensures
            final(self).wf(),
            final(self)@ == old(self)@.insert(key),
    {
        let (bucket, fp) = self.locate(key);
        let base = bucket * SLOTS;
        let ghost b = self@.bucket(key);
        assert(b.len() == 16);
        let mut i: usize = 0;
        while i < SLOTS
            invariant
                self.wf(),
                self@ == old(self)@,
                self@.len < usize::MAX,
                base == old(self)@.base_of(key),
                base + 16 <= self@.slots.len(),
                b == old(self)@.bucket(key),
                fp == fingerprint_of(key),
                i <= SLOTS,
                forall|j: int| 0 <= j < i ==> b[j] != fp,
            decreases SLOTS - i,
        {
            if self.slots[base + i] == fp {
                assert(b[i as int] == fp);
                self.len = self.len + 1;
                return;
            }
            i = i + 1;
        }
        assert(!b.contains(fp));
        let mut i: usize = 0;
        while i < SLOTS
            invariant
                self.wf(),
                self@ == old(self)@,
                self@.len < usize::MAX,
                base == old(self)@.base_of(key),
                base + 16 <= self@.slots.len(),
                b == old(self)@.bucket(key),
                fp == fingerprint_of(key),
                !b.contains(fp),
                i <= SLOTS,
                forall|j: int| 0 <= j < i ==> b[j] != 0u8,
            decreases SLOTS - i,
        {
            if self.slots[base + i] == 0u8 {
                assert(b[i as int] == 0u8);
                proof {
                    let w = first_index_of(b, 0u8);
                    assert(0 <= w < 16 && b[w] == 0u8 && forall|j: int| 0 <= j < w ==> b[j] != 0u8);
                    if w < i {
                    } else if w > i {
                        assert(b[i as int] == 0u8);
                    }
                    assert(w == i);
                }
                self.slots.set(base + i, fp);
                self.len = self.len + 1;
                return;
            }
            i = i + 1;
        }
        assert(!b.contains(0u8));
        self.overflow.insert(key);
        self.len = self.len + 1;
    }

    /// Membership probe: the key's bucket holds its fingerprint, or the key is
    /// in the overflow set (consulted only when that set is non-empty).
    pub fn contains(&self, key: u64) -> (r: bool)
        requires
            self.wf(),
        ensures
            r == self@.contains(key),
    {
        let (bucket, fp) = self.locate(key);
        let base = bucket * SLOTS;
        let ghost b = self@.bucket(key);
        let mut i: usize = 0;
        while i < SLOTS
            invariant
                self.wf(),
                base == self@.base_of(key),
                base + 16 <= self@.slots.len(),
                b == self@.bucket(key),
                fp == fingerprint_of(key),
                i <= SLOTS,
                forall|j: int| 0 <= j < i ==> b[j] != fp,
            decreases SLOTS - i,
        {
            if self.slots[base + i] == fp {
                assert(b[i as int] == fp);
                return true;
            }
            i = i + 1;
        }
        if !self.overflow.is_empty() {
            return self.overflow.contains(&key);
        }
        false
    }

    /// Number of insert calls so far.
    pub fn len(&self) -> (r: usize)
        ensures
            r == self@.len,
    {
        self.len
    }

    /// Whether no key was ever inserted.
    pub fn is_empty(&self) -> (r: bool)
        ensures
            r == (self@.len == 0),
    {
        self.len == 0
    }

    /// Number of keys held in the overflow set.
    pub fn overflow_len(&self) -> (r: usize)
        requires
            self.wf(),
        ensures
            r == self@.overflow.len(),
    {
        self.overflow.len()
    }

    /// Total resident bytes of the fingerprint store.
    pub fn store_bytes(&self) -> (r: usize)
        ensures
            r == self@.slots.len(),
    {
        self.slots.len()
    }

    /// Number of buckets.
    pub fn n_buckets(&self) -> (r: usize)
        ensures
            r == self@.n_buckets,
    {
        self.n_buckets
    }
}

} // verus!
