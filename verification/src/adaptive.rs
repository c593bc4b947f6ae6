//! Skew-adaptive layer that suppresses recurring false positives without ever
//! introducing a false negative.
//!
//! `AdaptiveFilter` wraps the base [`BlockedFilter`] with a bounded guard: a set
//! of confirmed false positives (confirmed non-members that the base filter
//! nonetheless reports present), kept in first-in first-out order.
//!
//! - `insert(key)` inserts into the base; the guard is untouched.
//! - `contains(key)` is `base.contains(key) && !guard.contains(key)`.
//! - `mark_false_positive(key)` adds `key` to the guard, evicting the oldest
//!   entry when the guard is at its capacity. The caller must only mark keys
//!   that are never inserted; under that condition no member is ever in the
//!   guard, so every member keeps testing present.

use std::collections::{HashSet, VecDeque};
use vstd::prelude::*;
use crate::blocked::{BlockedFilter, FilterModel, SLOTS, lemma_insert_keeps_members};

verus! {

broadcast use {vstd::std_specs::hash::group_hash_axioms, vstd::seq_lib::group_seq_properties, vstd::layout::layout_of_primitives};

/// The abstract state of an adaptive filter.
pub struct AdaptiveModel {
    /// The base filter.
    pub base: FilterModel,
    /// The guard's keys, oldest first.
    pub order: Seq<u64>,
    /// Maximum guard size; 0 disables adaptation.
    pub cap: nat,
    /// Accepted mark events.
    pub marks: nat,
    /// Evictions forced by the cap.
    pub evictions: nat,
}

impl AdaptiveModel {
    /// A fresh adaptive filter.
    pub open spec fn empty(n_buckets: nat, cap: nat) -> AdaptiveModel {
        AdaptiveModel {
            base: FilterModel::empty(n_buckets),
            order: Seq::empty(),
            cap,
            marks: 0,
            evictions: 0,
        }
    }

    /// The set of suppressed keys.
    pub open spec fn guard(self) -> Set<u64> {
        self.order.to_set()
    }

    /// The shape every reachable adaptive filter has: the base is well formed,
    /// the guard holds each key once and at most `cap` keys, and every accepted
    /// mark is either still in the guard or was evicted.
    pub open spec fn wf(self) -> bool {
        &&& self.base.wf()
        &&& self.order.no_duplicates()
        &&& self.order.len() <= self.cap
        &&& self.marks == self.evictions + self.order.len()
    }

    /// Membership: the base reports the key and the guard does not hold it.
    pub open spec fn contains(self, key: u64) -> bool {
        self.base.contains(key) && !self.order.contains(key)
    }

    /// The filter after inserting `key`: only the base changes.
    pub open spec fn insert(self, key: u64) -> AdaptiveModel {
        AdaptiveModel { base: self.base.insert(key), ..self }
    }

    /// The filter after marking `key` as a confirmed false positive.
    pub open spec fn mark(self, key: u64) -> AdaptiveModel {
        if self.cap == 0 || self.order.contains(key) {
            self
        } else if self.order.len() >= self.cap {
            AdaptiveModel {
                order: self.order.drop_first().push(key),
                marks: self.marks + 1,
                evictions: self.evictions + 1,
                ..self
            }
        } else {
            AdaptiveModel { order: self.order.push(key), marks: self.marks + 1, ..self }
        }
    }

    /// The filter after applying `op`.
    pub open spec fn apply(self, op: FilterOp) -> AdaptiveModel {
        match op {
            FilterOp::Insert(k) => self.insert(k),
            FilterOp::MarkFalsePositive(k) => self.mark(k),
        }
    }

    /// The filter after applying every operation of `ops`, in order.
    pub open spec fn apply_all(self, ops: Seq<FilterOp>) -> AdaptiveModel
        decreases ops.len(),
    {
        if ops.len() == 0 {
            self
        } else {
            self.apply_all(ops.drop_last()).apply(ops.last())
        }
    }
}

/// An operation on an adaptive filter, for stating properties of op sequences.
pub enum FilterOp {
    Insert(u64),
    MarkFalsePositive(u64),
}

/// Whether `ops` inserts `k`.
pub open spec fn inserts(ops: Seq<FilterOp>, k: u64) -> bool {
    exists|i: int| 0 <= i < ops.len() && ops[i] == FilterOp::Insert(k)
}

/// Whether `ops` marks `k` as a false positive.
pub open spec fn marks_key(ops: Seq<FilterOp>, k: u64) -> bool {
    exists|i: int| 0 <= i < ops.len() && ops[i] == FilterOp::MarkFalsePositive(k)
}

/// Inserting and marking keep an adaptive filter well formed: the guard never
/// exceeds its cap, holds each key once, and `marks == evictions + guard size`.
pub proof fn lemma_steps_keep_wf(m: AdaptiveModel, key: u64)
    requires
        m.wf(),
    ensures
        m.insert(key).wf(),
        m.mark(key).wf(),
        m.insert(key).order == m.order,
        m.mark(key).base == m.base,
        m.mark(key).cap == m.cap,
{
    lemma_insert_keeps_members(m.base, key, key);
    if m.cap != 0 && !m.order.contains(key) {
        if m.order.len() >= m.cap {
            lemma_drop_first_to_set(m.order);
            assert(!m.order.drop_first().contains(key)) by {
                if m.order.drop_first().contains(key) {
                    let j = choose|j: int|
                        0 <= j < m.order.drop_first().len() && m.order.drop_first()[j] == key;
                    assert(m.order[j + 1] == key);
                }
            }
            lemma_push_to_set(m.order.drop_first(), key);
        } else {
            lemma_push_to_set(m.order, key);
        }
    }
}

/// Every state reached by a sequence of operations is well formed; its guard
/// holds only keys that were in the guard at the start or were marked; and its
/// base reports every key that the base reported at the start or that was
/// inserted.
pub proof fn lemma_apply_all_facts(m: AdaptiveModel, ops: Seq<FilterOp>)
    requires
        m.wf(),
    ensures
        m.apply_all(ops).wf(),
        m.apply_all(ops).cap == m.cap,
        forall|k: u64| #[trigger]
            m.apply_all(ops).order.contains(k) ==> m.order.contains(k) || marks_key(ops, k),
        forall|k: u64|
            (m.base.contains(k) || inserts(ops, k)) ==> #[trigger] m.apply_all(ops).base.contains(k),
    decreases ops.len(),
{
    if ops.len() > 0 {
        let prefix = ops.drop_last();
        let op = ops.last();
        lemma_apply_all_facts(m, prefix);
        let mid = m.apply_all(prefix);
        assert(m.apply_all(ops) == mid.apply(op));
        match op {
            FilterOp::Insert(key) => {
                lemma_steps_keep_wf(mid, key);
                assert forall|k: u64|
                    (m.base.contains(k) || inserts(ops, k)) implies #[trigger] m.apply_all(
                    ops,
                ).base.contains(k) by {
                    lemma_insert_keeps_members(mid.base, key, k);
                    if inserts(ops, k) && k != key {
                        let i = choose|i: int| 0 <= i < ops.len() && ops[i] == FilterOp::Insert(k);
                        assert(i != ops.len() - 1);
                        assert(prefix[i] == ops[i]);
                    }
                }
                assert forall|k: u64| #[trigger]
                    m.apply_all(ops).order.contains(k) implies m.order.contains(k) || marks_key(
                    ops,
                    k,
                ) by {
                    if marks_key(prefix, k) {
                        let i = choose|i: int|
                            0 <= i < prefix.len() && prefix[i] == FilterOp::MarkFalsePositive(k);
                        assert(ops[i] == prefix[i]);
                    }
                }
            },
            FilterOp::MarkFalsePositive(key) => {
                lemma_steps_keep_wf(mid, key);
                assert forall|k: u64|
                    (m.base.contains(k) || inserts(ops, k)) implies #[trigger] m.apply_all(
                    ops,
                ).base.contains(k) by {
                    if inserts(ops, k) {
                        let i = choose|i: int| 0 <= i < ops.len() && ops[i] == FilterOp::Insert(k);
                        assert(i != ops.len() - 1);
                        assert(prefix[i] == ops[i]);
                    }
                }
                assert forall|k: u64| #[trigger]
                    m.apply_all(ops).order.contains(k) implies m.order.contains(k) || marks_key(
                    ops,
                    k,
                ) by {
                    let r = m.apply_all(ops);
                    if k == key {
                        assert(ops[ops.len() - 1] == FilterOp::MarkFalsePositive(k));
                    } else {
                        assert(mid.order.contains(k)) by {
                            let j = choose|j: int| 0 <= j < r.order.len() && r.order[j] == k;
                            if mid.cap != 0 && !mid.order.contains(key) {
                                if mid.order.len() >= mid.cap {
                                    assert(r.order == mid.order.drop_first().push(key));
                                    assert(mid.order[j + 1] == k);
                                } else {
                                    assert(r.order == mid.order.push(key));
                                    assert(mid.order[j] == k);
                                }
                            }
                        }
                        if marks_key(prefix, k) {
                            let i = choose|i: int|
                                0 <= i < prefix.len() && prefix[i] == FilterOp::MarkFalsePositive(k);
                            assert(ops[i] == prefix[i]);
                        }
                    }
                }
            },
        }
    }
}

/// No false negatives under adaptation: if no key is both inserted and marked
/// by `ops`, and no key in the starting guard is inserted by `ops`, then after
/// `ops` every inserted key tests present, and so does every key that tested
/// present at the start and is not marked.
pub proof fn lemma_no_false_negatives_under_adaptation(m: AdaptiveModel, ops: Seq<FilterOp>)
    requires
        m.wf(),
        forall|k: u64| #[trigger] inserts(ops, k) ==> !marks_key(ops, k),
        forall|k: u64| #[trigger] m.order.contains(k) ==> !inserts(ops, k),
    ensures
        forall|k: u64| #[trigger] inserts(ops, k) ==> m.apply_all(ops).contains(k),
        forall|k: u64| m.contains(k) && !marks_key(ops, k) ==> #[trigger] m.apply_all(ops).contains(k),
{
    lemma_apply_all_facts(m, ops);
    let r = m.apply_all(ops);
    assert forall|k: u64| #[trigger] inserts(ops, k) implies r.contains(k) by {
        assert(r.base.contains(k));
        if r.order.contains(k) {
            assert(m.order.contains(k) || marks_key(ops, k));
        }
    }
    assert forall|k: u64| m.contains(k) && !marks_key(ops, k) implies #[trigger] r.contains(k) by {
        assert(r.base.contains(k));
        if r.order.contains(k) {
            assert(m.order.contains(k) || marks_key(ops, k));
        }
    }
}

/// A cap of 0 disables adaptation: marking changes nothing, the guard stays
/// empty, and membership is exactly the base's, after any operations.
pub proof fn lemma_zero_cap_disables_adaptation(m: AdaptiveModel, ops: Seq<FilterOp>, key: u64)
    requires
        m.wf(),
        m.cap == 0,
    ensures
        m.mark(key) == m,
        m.apply_all(ops).order.len() == 0,
        m.apply_all(ops).marks == m.marks,
        forall|k: u64| #[trigger] m.apply_all(ops).contains(k) == m.apply_all(ops).base.contains(k),
    decreases ops.len(),
{
    lemma_apply_all_facts(m, ops);
    if ops.len() > 0 {
        lemma_zero_cap_disables_adaptation(m, ops.drop_last(), key);
        lemma_apply_all_facts(m, ops.drop_last());
    }
}

/// Marking suppresses: with a nonzero cap, a key tests absent right after it
/// is marked; marking a key that is already suppressed changes nothing; and
/// marking never changes the base.
pub proof fn lemma_mark_suppresses(m: AdaptiveModel, key: u64)
    requires
        m.wf(),
    ensures
        m.cap > 0 ==> !m.mark(key).contains(key),
        m.order.contains(key) ==> m.mark(key) == m,
        m.mark(key).base == m.base,
{
    if m.cap > 0 && !m.order.contains(key) {
        if m.order.len() >= m.cap {
            assert(m.mark(key).order[m.mark(key).order.len() - 1] == key);
        } else {
            assert(m.mark(key).order[m.order.len() as int] == key);
        }
    }
}

/// The keys that `ops` inserts, in order.
pub open spec fn inserted_keys(ops: Seq<FilterOp>) -> Seq<u64>
    decreases ops.len(),
{
    if ops.len() == 0 {
        Seq::empty()
    } else {
        let p = inserted_keys(ops.drop_last());
        match ops.last() {
            FilterOp::Insert(k) => p.push(k),
            FilterOp::MarkFalsePositive(_) => p,
        }
    }
}

/// The keys of the marks that `m` accepts while applying `ops`, in order: a
/// mark is accepted when the cap is nonzero and the key is not in the guard.
pub open spec fn accepted_marks(m: AdaptiveModel, ops: Seq<FilterOp>) -> Seq<u64>
    decreases ops.len(),
{
    if ops.len() == 0 {
        Seq::empty()
    } else {
        let p = ops.drop_last();
        let mid = m.apply_all(p);
        let a = accepted_marks(m, p);
        match ops.last() {
            FilterOp::MarkFalsePositive(k) => if mid.cap > 0 && !mid.order.contains(k) {
                a.push(k)
            } else {
                a
            },
            FilterOp::Insert(_) => a,
        }
    }
}

/// The smaller of two numbers.
pub open spec fn min_nat(a: nat, b: nat) -> nat {
    if a < b {
        a
    } else {
        b
    }
}

/// The guard never touches the base: after any operations, the base is the
/// starting base with exactly the inserted keys inserted, in order.
pub proof fn lemma_base_is_plain_filter(m: AdaptiveModel, ops: Seq<FilterOp>)
    ensures
        m.apply_all(ops).base == m.base.insert_all(inserted_keys(ops)),
    decreases ops.len(),
{
    if ops.len() > 0 {
        let p = ops.drop_last();
        lemma_base_is_plain_filter(m, p);
        match ops.last() {
            FilterOp::Insert(k) => {
                let ks = inserted_keys(ops);
                assert(ks.drop_last() == inserted_keys(p));
            },
            FilterOp::MarkFalsePositive(_) => {},
        }
    }
}

/// Starting from an empty guard, the guard is always the last `min(cap, A)`
/// accepted marks `A`, oldest first; every accepted mark is counted; and the
/// evictions are the accepted marks that no longer fit. In particular the
/// guard size is `min(marks, cap)`, and nothing is evicted while
/// `marks <= cap`.
pub proof fn lemma_guard_is_last_accepted_marks(n: nat, cap: nat, ops: Seq<FilterOp>)
    requires
        AdaptiveModel::empty(n, cap).wf(),
    ensures
        ({
            let r = AdaptiveModel::empty(n, cap).apply_all(ops);
            let a = accepted_marks(AdaptiveModel::empty(n, cap), ops);
            let g = min_nat(cap, a.len());
            &&& r.order == a.subrange(a.len() - g, a.len() as int)
            &&& r.order.len() == g
            &&& r.marks == a.len()
            &&& r.evictions == a.len() - g
            &&& r.cap == cap
        }),
    decreases ops.len(),
{
    let m = AdaptiveModel::empty(n, cap);
    if ops.len() == 0 {
        assert(Seq::<u64>::empty().subrange(0, 0) =~= Seq::<u64>::empty());
    } else {
        let p = ops.drop_last();
        lemma_guard_is_last_accepted_marks(n, cap, p);
        let mid = m.apply_all(p);
        let a = accepted_marks(m, p);
        let g = min_nat(cap, a.len());
        assert(m.apply_all(ops) == mid.apply(ops.last()));
        match ops.last() {
            FilterOp::Insert(k) => {},
            FilterOp::MarkFalsePositive(k) => {
                if mid.cap > 0 && !mid.order.contains(k) {
                    let a2 = a.push(k);
                    let g2 = min_nat(cap, a2.len());
                    if mid.order.len() >= cap {
                        assert(mid.order.drop_first().push(k) =~= a2.subrange(
                            a2.len() - g2,
                            a2.len() as int,
                        ));
                    } else {
                        assert(mid.order.push(k) =~= a2.subrange(a2.len() - g2, a2.len() as int));
                    }
                }
            },
        }
    }
}

/// Evictions never decrease.
proof fn lemma_evictions_monotone(m: AdaptiveModel, ops: Seq<FilterOp>)
    ensures
        m.evictions <= m.apply_all(ops).evictions,
    decreases ops.len(),
{
    if ops.len() > 0 {
        lemma_evictions_monotone(m, ops.drop_last());
    }
}

/// A suppressed key stays suppressed as long as nothing is evicted: if `key`
/// is in the guard and applying `ops` evicts nothing, it is still in the guard.
pub proof fn lemma_suppressed_until_evicted(m: AdaptiveModel, ops: Seq<FilterOp>, key: u64)
    requires
        m.order.contains(key),
        m.apply_all(ops).evictions == m.evictions,
    ensures
        m.apply_all(ops).order.contains(key),
    decreases ops.len(),
{
    if ops.len() > 0 {
        let p = ops.drop_last();
        let mid = m.apply_all(p);
        lemma_evictions_monotone(m, p);
        assert(m.apply_all(ops) == mid.apply(ops.last()));
        assert(mid.evictions <= m.apply_all(ops).evictions);
        lemma_suppressed_until_evicted(m, p, key);
        let j = choose|j: int| 0 <= j < mid.order.len() && mid.order[j] == key;
        let r = m.apply_all(ops);
        if r.order != mid.order {
            assert(r.order == mid.order.push(r.order.last()));
            assert(r.order[j] == key);
        }
    }
}

/// Skew-adaptive filter: a base [`BlockedFilter`] plus a bounded guard of
/// confirmed false positives.
pub struct AdaptiveFilter {
    /// The underlying no-false-negative filter.
    base: BlockedFilter,
    /// Confirmed non-members to suppress.
    guard: HashSet<u64>,
    /// Insertion order of `guard`, for first-in first-out eviction.
    order: VecDeque<u64>,
    /// Maximum guard size. `cap == 0` disables adaptation entirely.
    cap: usize,
    /// Accepted `mark_false_positive` events.
    marks: u64,
    /// Evictions forced by the cap.
    evictions: u64,
}

impl View for AdaptiveFilter {
    type V = AdaptiveModel;

    closed spec fn view(&self) -> AdaptiveModel {
        AdaptiveModel {
            base: self.base@,
            order: self.order@,
            cap: self.cap as nat,
            marks: self.marks as nat,
            evictions: self.evictions as nat,
        }
    }
}

/// Removing the first element of a sequence without duplicates removes
/// exactly that element from its set.
proof fn lemma_drop_first_to_set(s: Seq<u64>)
    requires
        s.no_duplicates(),
        s.len() > 0,
    ensures
        s.drop_first().to_set() == s.to_set().remove(s[0]),
        s.drop_first().no_duplicates(),
{
    assert forall|x: u64| s.drop_first().to_set().contains(x) <==> s.to_set().remove(s[0]).contains(
        x,
    ) by {
        if s.drop_first().contains(x) {
            let j = choose|j: int| 0 <= j < s.drop_first().len() && s.drop_first()[j] == x;
            assert(s[j + 1] == x);
        }
        if s.contains(x) && x != s[0] {
            let j = choose|j: int| 0 <= j < s.len() && s[j] == x;
            assert(s.drop_first()[j - 1] == x);
        }
    }
    assert(s.drop_first().to_set() =~= s.to_set().remove(s[0]));
}

/// Appending an element absent from a sequence without duplicates inserts it
/// into its set and keeps the sequence free of duplicates.
proof fn lemma_push_to_set(s: Seq<u64>, k: u64)
    requires
        s.no_duplicates(),
        !s.contains(k),
    ensures
        s.push(k).to_set() == s.to_set().insert(k),
        s.push(k).no_duplicates(),
{
    assert forall|x: u64| s.push(k).to_set().contains(x) <==> s.to_set().insert(k).contains(x) by {
        if s.push(k).contains(x) {
            let j = choose|j: int| 0 <= j < s.push(k).len() && s.push(k)[j] == x;
            if j < s.len() {
                assert(s[j] == x);
            }
        }
        if s.contains(x) {
            let j = choose|j: int| 0 <= j < s.len() && s[j] == x;
            assert(s.push(k)[j] == x);
        }
        if x == k {
            assert(s.push(k)[s.len() as int] == k);
        }
    }
    assert(s.push(k).to_set() =~= s.to_set().insert(k));
}

impl AdaptiveFilter {
    /// Well-formedness: the abstract state is well formed and the concrete
    /// representation agrees with it.
    pub open spec fn wf(&self) -> bool {
        self@.wf() && self.consistent()
    }

    /// The base is well formed, and the guard set and the eviction order hold
    /// the same keys.
    pub closed spec fn consistent(&self) -> bool {
        &&& self.base.wf()
        &&& self.guard@ == self.order@.to_set()
    }

    /// Build an adaptive filter over a base of `n_buckets` buckets, with a
    /// guard capped at `cap` confirmed false positives. `cap == 0` disables
    /// suppression.
    pub fn with_buckets(n_buckets: usize, cap: usize) -> (r: Self)
        requires
            n_buckets > 0,
            n_buckets <= usize::MAX / SLOTS,
        ensures
            r.wf(),
            r@ == AdaptiveModel::empty(n_buckets as nat, cap as nat),
    {
        let r = Self {
            base: BlockedFilter::with_buckets(n_buckets),
            guard: HashSet::new(),
            order: VecDeque::new(),
            cap,
            marks: 0,
            evictions: 0,
        };
        assert(r.guard@ =~= r.order@.to_set());
        r
    }

    /// Insert a member. Only the base changes; the guard is untouched.
    pub fn insert(&mut self, key: u64)
        requires
            old(self).wf(),
            old(self)@.base.len < usize::MAX,
        ensures
            final(self).wf(),
            final(self)@ == old(self)@.insert(key),
    {
        self.base.insert(key);
    }

    /// Membership query: `base.contains(key) && !guard.contains(key)`.
    pub fn contains(&self, key: u64) -> (r: bool)
        requires
            self.wf(),
        ensures
            r == self@.contains(key),
    {
        self.base.contains(key) && !self.guard.contains(&key)
    }

    /// Suppress a confirmed false positive. Marking is a no-op when the cap is
    /// 0 or the key is already suppressed (its eviction position is kept);
    /// otherwise the oldest entry is evicted when the guard is full, and the
    /// key joins the guard as its newest entry.
    ///
    /// The caller must only mark keys that it never inserts: that is what keeps
    /// members out of the guard.
    pub fn mark_false_positive(&mut self, key: u64)
        requires
            old(self).wf(),
            old(self)@.cap == 0 || old(self)@.order.contains(key) || old(self)@.marks < u64::MAX,
        ensures
            final(self).wf(),
            final(self)@ == old(self)@.mark(key),
    {
        if self.cap == 0 || self.guard.contains(&key) {
            return;
        }
        proof {
            self@.order.unique_seq_to_set();
        }
        let ghost old_order = self@.order;
        let ghost old_len = old_order.len();
        let ghost mut k: int = 0;
        while self.guard.len() >= self.cap
            invariant
                self.wf(),
                self.cap > 0,
                self.base == old(self).base,
                self.cap == old(self).cap,
                self.marks == old(self).marks,
                old_order == old(self)@.order,
                old_len == old_order.len(),
                old_len <= self.cap,
                0 <= k <= 1,
                k == 1 ==> old_len >= self.cap,
                self@.order == old_order.subrange(k, old_len as int),
                self.evictions == old(self).evictions + k,
                self@.marks < u64::MAX,
                !self@.order.contains(key),
                self@.order.to_set().len() == self@.order.len(),
            ensures
                self@.order.len() < self.cap,
            decreases self@.order.len(),
        {
            proof {
                self@.order.unique_seq_to_set();
            }
            if let Some(oldest) = self.order.pop_front() {
                proof {
                    let prev = old_order.subrange(k, old_len as int);
                    lemma_drop_first_to_set(prev);
                    assert(prev.drop_first() == old_order.subrange(k + 1, old_len as int));
                    k = k + 1;
                    prev.drop_first().unique_seq_to_set();
                }
                self.guard.remove(&oldest);
                self.evictions = self.evictions + 1;
            } else {
                assert(self@.order.len() == 0);
                break;
            }
        }
        proof {
            self@.order.unique_seq_to_set();
            lemma_push_to_set(self@.order, key);
            if k == 1 {
                assert(old_order.subrange(1, old_len as int) == old_order.drop_first());
            } else {
                assert(old_order.subrange(0, old_len as int) == old_order);
            }
        }
        self.guard.insert(key);
        self.order.push_back(key);
        self.marks = self.marks + 1;
    }

    /// The underlying base filter.
    pub fn base(&self) -> (r: &BlockedFilter)
        requires
            self.wf(),
        ensures
            r.wf(),
            r@ == self@.base,
    {
        &self.base
    }

    /// Current number of suppressed false positives held in the guard.
    pub fn guard_len(&self) -> (r: usize)
        requires
            self.wf(),
        ensures
            r == self@.order.len(),
    {
        proof {
            self@.order.unique_seq_to_set();
        }
        self.guard.len()
    }

    /// Configured guard capacity.
    pub fn cap(&self) -> (r: usize)
        ensures
            r == self@.cap,
    {
        self.cap
    }

    /// Accepted mark events over this filter's life.
    pub fn marks(&self) -> (r: u64)
        ensures
            r == self@.marks,
    {
        self.marks
    }

    /// Evictions forced by the cap over this filter's life.
    pub fn evictions(&self) -> (r: u64)
        ensures
            r == self@.evictions,
    {
        self.evictions
    }

    /// Extra resident bytes of the guard: one `u64` key each in the guard set
    /// and in the eviction order.
    pub fn guard_bytes(&self) -> (r: usize)
        requires
            self.wf(),
            self@.order.len() * 16 <= usize::MAX,
        ensures
            r == self@.order.len() * 16,
    {
        proof {
            self@.order.unique_seq_to_set();
        }
        self.guard.len() * std::mem::size_of::<u64>() + self.order.len() * std::mem::size_of::<u64>()
    }
}

} // verus!
