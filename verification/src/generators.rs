//! Deterministic data generators for the skew experiments, and the replay of a
//! negative stream through an adaptive filter.
//!
//! Everything is drawn from a splitmix64 stream. Members and negatives are made
//! disjoint by a reserved tag bit: member values have the top bit clear,
//! negative values have it set, so a member can never equal a negative.

use std::collections::HashSet;
use vstd::prelude::*;
use crate::adaptive::{AdaptiveFilter, AdaptiveModel, lemma_steps_keep_wf};
use crate::blocked::{FilterModel, SLOTS, lemma_insert_keeps_members, lemma_no_false_negatives};
use crate::mixing::{
    SplitMix64, draw, state_after, word, lemma_draws_distinct, seed_for_first_draw,
    lemma_first_draw_reaches,
};

verus! {

broadcast use {vstd::std_specs::hash::group_hash_axioms, vstd::seq_lib::group_seq_properties, vstd::set::group_set_axioms};

/// Top bit set: the negative tag. Members clear it; negatives set it.
pub const NEG_TAG: u64 = 0x8000_0000_0000_0000u64;

/// Mask that clears the top bit: the member-domain mask.
pub const MEMBER_MASK: u64 = 0x7FFF_FFFF_FFFF_FFFFu64;

/// A raw draw moved into the negative domain (top bit set) or the member domain
/// (top bit cleared).
pub open spec fn into_domain(v: u64, negative: bool) -> u64 {
    if negative {
        v | NEG_TAG
    } else {
        v & MEMBER_MASK
    }
}

/// The first `d` draws of the generator seeded with `seed`, moved into a domain.
pub open spec fn domain_draws(seed: u64, d: nat, negative: bool) -> Seq<u64> {
    Seq::new(d, |i: int| into_domain(draw(seed, i as nat), negative))
}

/// `s` with every repeated value dropped, first occurrences kept in order.
pub open spec fn dedup(s: Seq<u64>) -> Seq<u64>
    decreases s.len(),
{
    if s.len() == 0 {
        s
    } else {
        let p = dedup(s.drop_last());
        if p.contains(s.last()) {
            p
        } else {
            p.push(s.last())
        }
    }
}

/// The distinct values among the first `d` domain draws, in order of first
/// appearance.
pub open spec fn distinct_draws(seed: u64, d: nat, negative: bool) -> Seq<u64> {
    dedup(domain_draws(seed, d, negative))
}

/// `dedup` keeps exactly the values of its input, each once.
pub proof fn lemma_dedup(s: Seq<u64>)
    ensures
        dedup(s).no_duplicates(),
        dedup(s).to_set() == s.to_set(),
        dedup(s).len() == s.to_set().len(),
    decreases s.len(),
{
    if s.len() > 0 {
        let p = s.drop_last();
        lemma_dedup(p);
        let x = s.last();
        assert(s == p.push(x));
        assert(s.to_set() =~= p.to_set().insert(x)) by {
            assert forall|y: u64| s.to_set().contains(y) <==> p.to_set().insert(x).contains(y) by {
                if s.contains(y) {
                    let j = choose|j: int| 0 <= j < s.len() && s[j] == y;
                    if j < p.len() {
                        assert(p[j] == y);
                    }
                }
                if p.contains(y) {
                    let j = choose|j: int| 0 <= j < p.len() && p[j] == y;
                    assert(s[j] == y);
                }
                assert(s[s.len() - 1] == x);
            }
        }
        let dp = dedup(p);
        if !dp.contains(x) {
            assert(dp.push(x).to_set() =~= dp.to_set().insert(x)) by {
                assert forall|y: u64| dp.push(x).contains(y) <==> dp.contains(y) || y == x by {
                    if dp.push(x).contains(y) {
                        let j = choose|j: int| 0 <= j < dp.push(x).len() && dp.push(x)[j] == y;
                        if j < dp.len() {
                            assert(dp[j] == y);
                        }
                    }
                    if dp.contains(y) {
                        let j = choose|j: int| 0 <= j < dp.len() && dp[j] == y;
                        assert(dp.push(x)[j] == y);
                    }
                    assert(dp.push(x)[dp.len() as int] == x);
                }
            }
        } else {
            assert(p.to_set().contains(x));
            assert(s.to_set() =~= p.to_set());
        }
        dedup(s).unique_seq_to_set();
    } else {
        assert(s.to_set() =~= Set::<u64>::empty());
    }
}

/// `dedup` of an extension extends the `dedup` of the prefix.
pub proof fn lemma_dedup_prefix(s: Seq<u64>, t: Seq<u64>)
    requires
        s.len() <= t.len(),
        s == t.subrange(0, s.len() as int),
    ensures
        dedup(s).len() <= dedup(t).len(),
        dedup(s) == dedup(t).subrange(0, dedup(s).len() as int),
    decreases t.len(),
{
    if s.len() < t.len() {
        let tp = t.drop_last();
        assert(s == tp.subrange(0, s.len() as int));
        lemma_dedup_prefix(s, tp);
    } else {
        assert(s == t);
    }
}

/// The domain draws grow one draw at a time.
proof fn lemma_domain_draws_push(seed: u64, d: nat, negative: bool)
    ensures
        domain_draws(seed, d + 1, negative) == domain_draws(seed, d, negative).push(
            into_domain(draw(seed, d), negative),
        ),
        domain_draws(seed, d + 1, negative).drop_last() == domain_draws(seed, d, negative),
{
    assert(domain_draws(seed, d + 1, negative) =~= domain_draws(seed, d, negative).push(
        into_domain(draw(seed, d), negative),
    ));
}

/// A raw value differs from its domain image at most in the top bit.
proof fn lemma_into_domain_top_bit(v: u64)
    by (bit_vector)
    ensures
        (v & MEMBER_MASK) == v || ((v & MEMBER_MASK) ^ NEG_TAG) == v,
        (v | NEG_TAG) == v || ((v | NEG_TAG) ^ NEG_TAG) == v,
{
}

/// Over its first `d <= 2^64` draws a generator yields at least `d / 2`
/// distinct domain values: draws never repeat, and at most two raw values
/// share a domain value.
pub proof fn lemma_domain_draws_count(seed: u64, d: nat, negative: bool)
    requires
        d <= word(),
    ensures
        d <= 2 * domain_draws(seed, d, negative).to_set().len(),
{
    let raw = Seq::new(d, |i: int| draw(seed, i as nat));
    assert(raw.no_duplicates()) by {
        assert forall|i: int, j: int| 0 <= i < raw.len() && 0 <= j < raw.len() && i != j implies raw[i]
            != raw[j] by {
            if raw[i] == raw[j] {
                lemma_draws_distinct(seed, i as nat, j as nat);
            }
        }
    }
    raw.unique_seq_to_set();
    let s = domain_draws(seed, d, negative).to_set();
    let flip = |v: u64| v ^ NEG_TAG;
    let fs = s.map(flip);
    vstd::set_lib::lemma_map_size_bound(s, fs, flip);
    vstd::set_lib::lemma_len_union(s, fs);
    assert(raw.to_set().subset_of(s.union(fs))) by {
        assert forall|r: u64| raw.to_set().contains(r) implies s.union(fs).contains(r) by {
            let i = choose|i: int| 0 <= i < raw.len() && raw[i] == r;
            let img = into_domain(r, negative);
            assert(domain_draws(seed, d, negative)[i] == img);
            assert(s.contains(img));
            lemma_into_domain_top_bit(r);
            if img != r {
                assert(flip(img) == r);
                assert(fs.contains(r));
            }
        }
    }
    vstd::set_lib::lemma_len_subset(raw.to_set(), s.union(fs));
}

/// Draw `count` distinct values from a splitmix64 stream, each forced into the
/// member domain `[0, 2^63)` (top bit clear).
pub fn member_set(count: usize, seed: u64) -> (out: Vec<u64>)
    requires
        count <= usize::MAX / 2,
    ensures
        out@.len() == count,
        exists|d: nat| out@ == #[trigger] distinct_draws(seed, d, false),
        out@.no_duplicates(),
        forall|i: int| 0 <= i < out@.len() ==> #[trigger] out@[i] & NEG_TAG == 0,
{
    distinct_domain_draws(count, seed, false)
}

/// Draw `size` distinct values in the negative domain `[2^63, 2^64)` (top bit
/// set). Every returned value is disjoint from any [`member_set`] output.
pub fn negative_universe(size: usize, seed: u64) -> (out: Vec<u64>)
    requires
        size <= usize::MAX / 2,
    ensures
        out@.len() == size,
        exists|d: nat| out@ == #[trigger] distinct_draws(seed, d, true),
        out@.no_duplicates(),
        forall|i: int| 0 <= i < out@.len() ==> #[trigger] out@[i] & NEG_TAG == NEG_TAG,
{
    distinct_domain_draws(size, seed, true)
}

/// An adversarial negative stream: `n` all-distinct confirmed non-members, so
/// no element ever recurs.
pub fn adversarial_stream(n: usize, seed: u64) -> (out: Vec<u64>)
    requires
        n <= usize::MAX / 2,
    ensures
        out@.len() == n,
        exists|d: nat| out@ == #[trigger] distinct_draws(seed, d, true),
        out@.no_duplicates(),
        forall|i: int| 0 <= i < out@.len() ==> #[trigger] out@[i] & NEG_TAG == NEG_TAG,
{
    distinct_domain_draws(n, seed, true)
}

/// The first `count` distinct domain values of the stream seeded with `seed`.
fn distinct_domain_draws(count: usize, seed: u64, negative: bool) -> (out: Vec<u64>)
    requires
        count <= usize::MAX / 2,
    ensures
        out@.len() == count,
        exists|d: nat| out@ == #[trigger] distinct_draws(seed, d, negative),
        out@.no_duplicates(),
        forall|i: int|
            0 <= i < out@.len() ==> #[trigger] out@[i] & NEG_TAG == (if negative {
                NEG_TAG
            } else {
                0u64
            }),
{
    let mut rng = SplitMix64::new(seed);
    let mut seen: HashSet<u64> = HashSet::with_capacity(count * 2);
    let mut out: Vec<u64> = Vec::with_capacity(count);
    let ghost mut d: nat = 0;
    proof {
        assert(domain_draws(seed, 0, negative) =~= Seq::<u64>::empty());
        assert(seen@ =~= out@.to_set());
    }
    while out.len() < count
        invariant
            count <= usize::MAX / 2,
            rng@ == state_after(seed, d),
            out@ == distinct_draws(seed, d, negative),
            seen@ == out@.to_set(),
            out@.len() <= count,
            d <= 2 * out@.len(),
        decreases 2 * count - d,
    {
        let raw = rng.next_u64();
        let v = if negative {
            raw | NEG_TAG
        } else {
            raw & MEMBER_MASK
        };
        proof {
            lemma_domain_draws_push(seed, d, negative);
            lemma_dedup(domain_draws(seed, d, negative));
            assert(v == into_domain(draw(seed, d), negative));
        }
        if seen.insert(v) {
            out.push(v);
        }
        proof {
            d = d + 1;
            lemma_dedup(domain_draws(seed, d, negative));
            lemma_domain_draws_count(seed, d, negative);
            assert(seen@ =~= out@.to_set());
        }
    }
    proof {
        lemma_dedup(domain_draws(seed, d, negative));
        assert forall|i: int| 0 <= i < out@.len() implies #[trigger] out@[i] & NEG_TAG == (if negative {
            NEG_TAG
        } else {
            0u64
        }) by {
            assert(out@.to_set().contains(out@[i]));
            assert(domain_draws(seed, d, negative).to_set().contains(out@[i]));
            let j = choose|j: int|
                0 <= j < domain_draws(seed, d, negative).len() && domain_draws(seed, d, negative)[j]
                    == out@[i];
            let r = draw(seed, j as nat);
            if negative {
                assert((r | NEG_TAG) & NEG_TAG == NEG_TAG) by (bit_vector);
            } else {
                assert((r & MEMBER_MASK) & NEG_TAG == 0u64) by (bit_vector);
            }
        }
    }
    out
}

/// The result of a generator of distinct draws is determined by its length:
/// two prefixes of the distinct-value stream of equal length are equal.
pub proof fn lemma_distinct_draws_determined(seed: u64, d1: nat, d2: nat, negative: bool)
    requires
        distinct_draws(seed, d1, negative).len() == distinct_draws(seed, d2, negative).len(),
    ensures
        distinct_draws(seed, d1, negative) == distinct_draws(seed, d2, negative),
{
    let (lo, hi) = if d1 <= d2 {
        (d1, d2)
    } else {
        (d2, d1)
    };
    assert(domain_draws(seed, lo, negative) =~= domain_draws(seed, hi, negative).subrange(
        0,
        lo as int,
    ));
    lemma_dedup_prefix(domain_draws(seed, lo, negative), domain_draws(seed, hi, negative));
    assert(distinct_draws(seed, hi, negative) =~= distinct_draws(seed, hi, negative).subrange(
        0,
        distinct_draws(seed, hi, negative).len() as int,
    ));
}

/// Members and negatives are disjoint: no value drawn into the member domain
/// equals a value drawn into the negative domain, whatever the seeds and counts.
pub proof fn lemma_members_disjoint_from_negatives(
    member_seed: u64,
    member_draws: nat,
    negative_seed: u64,
    negative_draws: nat,
)
    ensures
        forall|i: int, j: int|
            0 <= i < distinct_draws(member_seed, member_draws, false).len() && 0 <= j
                < distinct_draws(negative_seed, negative_draws, true).len() ==> #[trigger] distinct_draws(
                member_seed,
                member_draws,
                false,
            )[i] != #[trigger] distinct_draws(negative_seed, negative_draws, true)[j],
{
    let ms = distinct_draws(member_seed, member_draws, false);
    let ns = distinct_draws(negative_seed, negative_draws, true);
    lemma_dedup(domain_draws(member_seed, member_draws, false));
    lemma_dedup(domain_draws(negative_seed, negative_draws, true));
    assert forall|i: int, j: int| 0 <= i < ms.len() && 0 <= j < ns.len() implies #[trigger] ms[i]
        != #[trigger] ns[j] by {
        assert(ms.to_set().contains(ms[i]));
        assert(ns.to_set().contains(ns[j]));
        let a = choose|a: int|
            0 <= a < member_draws && domain_draws(member_seed, member_draws, false)[a] == ms[i];
        let b = choose|b: int|
            0 <= b < negative_draws && domain_draws(negative_seed, negative_draws, true)[b] == ns[j];
        let x = draw(member_seed, a as nat);
        let y = draw(negative_seed, b as nat);
        assert((x & MEMBER_MASK) != (y | NEG_TAG)) by (bit_vector);
    }
}

/// Tagging is injective on member-domain values, and a raw value's negative
/// image is its member image tagged.
proof fn lemma_tag_facts(a: u64, b: u64, r: u64)
    by (bit_vector)
    ensures
        (r | NEG_TAG) == ((r & MEMBER_MASK) | NEG_TAG),
        (r & MEMBER_MASK) & NEG_TAG == 0u64,
        (a & NEG_TAG == 0u64 && b & NEG_TAG == 0u64 && (a | NEG_TAG) == (b | NEG_TAG)) ==> a == b,
{
}

/// The negative universe is the member set with the top bit set: for equal
/// draw counts, the distinct negative draws are the distinct member draws,
/// position by position, tagged.
pub proof fn lemma_negatives_are_tagged_members(seed: u64, d: nat)
    ensures
        distinct_draws(seed, d, true).len() == distinct_draws(seed, d, false).len(),
        forall|i: int|
            0 <= i < distinct_draws(seed, d, true).len() ==> #[trigger] distinct_draws(seed, d, true)[i]
                == (distinct_draws(seed, d, false)[i] | NEG_TAG),
    decreases d,
{
    if d == 0 {
    } else {
        let e = (d - 1) as nat;
        lemma_negatives_are_tagged_members(seed, e);
        lemma_domain_draws_push(seed, e, true);
        lemma_domain_draws_push(seed, e, false);
        let sm = domain_draws(seed, e, false);
        let sn = domain_draws(seed, e, true);
        let pm = dedup(sm);
        let pn = dedup(sn);
        let r = draw(seed, e);
        let xm = r & MEMBER_MASK;
        let xn = r | NEG_TAG;
        lemma_tag_facts(0, 0, r);
        lemma_dedup(sm);
        assert(domain_draws(seed, d, false) == sm.push(xm));
        assert(domain_draws(seed, d, true) == sn.push(xn));
        assert(pn.contains(xn) == pm.contains(xm)) by {
            if pm.contains(xm) {
                let i = choose|i: int| 0 <= i < pm.len() && pm[i] == xm;
                assert(pn[i] == xn);
            }
            if pn.contains(xn) {
                let i = choose|i: int| 0 <= i < pn.len() && pn[i] == xn;
                assert(pm.to_set().contains(pm[i]));
                let j = choose|j: int| 0 <= j < sm.len() && sm[j] == pm[i];
                lemma_tag_facts(pm[i], xm, draw(seed, j as nat));
            }
        }
    }
}

/// The element that a uniform stream seeded with `seed` picks at position `i`.
pub open spec fn uniform_pick(universe: Seq<u64>, seed: u64, i: nat) -> u64 {
    universe[((draw(seed, i) as usize) as nat % universe.len()) as int]
}

/// A uniform negative stream: each element an equiprobable draw from `universe`.
pub fn uniform_stream(universe: &[u64], n: usize, seed: u64) -> (out: Vec<u64>)
    requires
        universe@.len() > 0,
    ensures
        out@.len() == n,
        forall|i: int| 0 <= i < n ==> #[trigger] out@[i] == uniform_pick(universe@, seed, i as nat),
{
    let u = universe.len();
    let mut rng = SplitMix64::new(seed);
    let mut out: Vec<u64> = Vec::with_capacity(n);
    let mut i: usize = 0;
    while i < n
        invariant
            u == universe@.len(),
            u > 0,
            i <= n,
            rng@ == state_after(seed, i as nat),
            out@.len() == i,
            forall|j: int| 0 <= j < i ==> #[trigger] out@[j] == uniform_pick(universe@, seed, j as nat),
        decreases n - i,
    {
        let r = rng.next_u64();
        out.push(universe[(r as usize) % u]);
        i = i + 1;
    }
    out
}

/// Counts from replaying a negative stream through one filter configuration.
pub struct ReplayTally {
    /// False positives among the final `window` stream elements.
    pub fp_window: u64,
    /// The trailing window actually measured (at least 1, at most the stream length).
    pub window: usize,
    /// Guard occupancy at the end of the stream.
    pub guard_len: usize,
    /// Extra resident bytes of the guard at the end of the stream.
    pub guard_bytes: usize,
    /// Evictions forced by the cap over the run.
    pub evictions: u64,
    /// Whether every member still tests present at the end.
    pub members_present: bool,
}

/// The filter a replay starts from: `members` inserted into `n_buckets` empty
/// buckets, with the guard capped at `cap` when adapting and disabled otherwise.
pub open spec fn replay_start(members: Seq<u64>, n_buckets: nat, cap: nat, adapt: bool) -> AdaptiveModel {
    AdaptiveModel {
        base: FilterModel::empty(n_buckets).insert_all(members),
        ..AdaptiveModel::empty(n_buckets, if adapt { cap } else { 0 })
    }
}

/// The filter after replaying `stream`: each element that tests present is a
/// false positive and, when adapting, is marked.
pub open spec fn replay_state(m: AdaptiveModel, stream: Seq<u64>, adapt: bool) -> AdaptiveModel
    decreases stream.len(),
{
    if stream.len() == 0 {
        m
    } else {
        let p = replay_state(m, stream.drop_last(), adapt);
        if adapt && p.contains(stream.last()) {
            p.mark(stream.last())
        } else {
            p
        }
    }
}

/// The number of elements at positions `>= start` of `stream` that test present
/// when they are replayed.
pub open spec fn replay_hits(m: AdaptiveModel, stream: Seq<u64>, adapt: bool, start: nat) -> nat
    decreases stream.len(),
{
    if stream.len() == 0 {
        0
    } else {
        let p = stream.drop_last();
        replay_hits(m, p, adapt, start) + if p.len() >= start && replay_state(m, p, adapt).contains(
            stream.last(),
        ) {
            1nat
        } else {
            0nat
        }
    }
}

/// Adaptation only removes positives: replaying the same stream over the same
/// members and buckets, the adaptive run counts no more false positives than
/// the flat run, from any position on; and the flat run never changes its
/// filter, so its guard stays empty and nothing is evicted, whatever its cap.
pub proof fn lemma_adaptation_only_removes_positives(
    members: Seq<u64>,
    n_buckets: nat,
    flat_cap: nat,
    adaptive_cap: nat,
    stream: Seq<u64>,
    first: nat,
)
    ensures
        replay_hits(replay_start(members, n_buckets, adaptive_cap, true), stream, true, first)
            <= replay_hits(replay_start(members, n_buckets, flat_cap, false), stream, false, first),
        replay_state(replay_start(members, n_buckets, flat_cap, false), stream, false)
            == replay_start(members, n_buckets, flat_cap, false),
        replay_start(members, n_buckets, flat_cap, false).order.len() == 0,
        replay_start(members, n_buckets, flat_cap, false).evictions == 0,
        replay_state(replay_start(members, n_buckets, adaptive_cap, true), stream, true).base
            == replay_start(members, n_buckets, flat_cap, false).base,
    decreases stream.len(),
{
    let fl = replay_start(members, n_buckets, flat_cap, false);
    let ad = replay_start(members, n_buckets, adaptive_cap, true);
    if stream.len() > 0 {
        let p = stream.drop_last();
        lemma_adaptation_only_removes_positives(members, n_buckets, flat_cap, adaptive_cap, p, first);
    }
}

/// Every element of the universe can be drawn: for each position `j` of a
/// non-empty universe there is a seed whose uniform stream starts with
/// `universe[j]` (the draw is reduced modulo the whole universe length).
pub proof fn lemma_uniform_reaches_every_element(universe: Seq<u64>, j: int)
    requires
        0 <= j < universe.len(),
        universe.len() <= usize::MAX,
    ensures
        exists|seed: u64| #[trigger] uniform_pick(universe, seed, 0) == universe[j],
{
    let y = j as u64;
    lemma_first_draw_reaches(y);
    let seed = seed_for_first_draw(y);
    assert(draw(seed, 0) == y);
    assert((y as usize) as nat == j);
    vstd::arithmetic::div_mod::lemma_small_mod(j as nat, universe.len());
    assert(uniform_pick(universe, seed, 0) == universe[j]);
}

/// Replay marks only false positives: every key that ends up in the guard was
/// in the guard at the start, or occurs in the stream at a position where the
/// filter reported it present (so the base reports it present). The base never
/// changes. A stream none of whose elements the base reports present leaves
/// the guard, the evictions and the false-positive count untouched.
pub proof fn lemma_replay_marks_only_positives(
    m: AdaptiveModel,
    stream: Seq<u64>,
    adapt: bool,
    first: nat,
)
    ensures
        replay_state(m, stream, adapt).base == m.base,
        forall|k: u64| #[trigger]
            replay_state(m, stream, adapt).order.contains(k) ==> m.order.contains(k) || (exists|
                i: int,
            |
                0 <= i < stream.len() && stream[i] == k && replay_state(
                    m,
                    stream.take(i),
                    adapt,
                ).contains(k)),
        forall|k: u64| #[trigger]
            replay_state(m, stream, adapt).order.contains(k) ==> m.order.contains(k)
                || m.base.contains(k),
        (forall|i: int| 0 <= i < stream.len() ==> !m.base.contains(#[trigger] stream[i])) ==> (
        replay_state(m, stream, adapt) == m && replay_hits(m, stream, adapt, first) == 0),
    decreases stream.len(),
{
    if stream.len() > 0 {
        let p = stream.drop_last();
        let x = stream.last();
        lemma_replay_marks_only_positives(m, p, adapt, first);
        let mid = replay_state(m, p, adapt);
        let r = replay_state(m, stream, adapt);
        assert(stream.take(p.len() as int) == p);
        assert forall|k: u64| #[trigger] r.order.contains(k) implies m.order.contains(k) || (exists|
            i: int,
        | 0 <= i < stream.len() && stream[i] == k && replay_state(m, stream.take(i), adapt).contains(k)) by {
            if mid.order.contains(k) {
                if !m.order.contains(k) {
                    let i = choose|i: int|
                        0 <= i < p.len() && p[i] == k && replay_state(m, p.take(i), adapt).contains(k);
                    assert(stream.take(i) == p.take(i));
                    assert(stream[i] == k);
                }
            } else {
                assert(adapt && mid.contains(x));
                let jj = choose|jj: int| 0 <= jj < r.order.len() && r.order[jj] == k;
                if k != x {
                    if mid.order.len() >= mid.cap {
                        assert(r.order == mid.order.drop_first().push(x));
                        assert(mid.order[jj + 1] == k);
                    } else {
                        assert(r.order == mid.order.push(x));
                        assert(mid.order[jj] == k);
                    }
                }
                assert(stream[p.len() as int] == x);
            }
        }
        assert forall|k: u64| #[trigger] r.order.contains(k) implies m.order.contains(k)
            || m.base.contains(k) by {
            if !m.order.contains(k) {
                let i = choose|i: int|
                    0 <= i < stream.len() && stream[i] == k && replay_state(m, stream.take(i), adapt).contains(k);
                lemma_replay_marks_only_positives(m, stream.take(i), adapt, first);
            }
        }
        if forall|i: int| 0 <= i < stream.len() ==> !m.base.contains(#[trigger] stream[i]) {
            assert forall|i: int| 0 <= i < p.len() implies !m.base.contains(#[trigger] p[i]) by {
                assert(stream[i] == p[i]);
            }
            assert(!m.base.contains(stream[p.len() as int]));
        }
    }
}

/// The requested window clamped to `[1, n]`.
pub open spec fn effective_window(window: nat, n: nat) -> nat {
    let w = if window < n {
        window
    } else {
        n
    };
    if w < 1 {
        1
    } else {
        w
    }
}

/// An adaptive filter of `n_buckets` buckets and guard cap `cap` holding `members`.
fn build_filter(members: &[u64], n_buckets: usize, cap: usize) -> (f: AdaptiveFilter)
    requires
        n_buckets > 0,
        n_buckets <= usize::MAX / SLOTS,
    ensures
        f.wf(),
        f@ == (AdaptiveModel {
            base: FilterModel::empty(n_buckets as nat).insert_all(members@),
            ..AdaptiveModel::empty(n_buckets as nat, cap as nat)
        }),
        forall|k: int| 0 <= k < members@.len() ==> f@.base.contains(#[trigger] members@[k]),
{
    let mut f = AdaptiveFilter::with_buckets(n_buckets, cap);
    let ghost empty = FilterModel::empty(n_buckets as nat);
    let mut j: usize = 0;
    while j < members.len()
        invariant
            f.wf(),
            j <= members@.len(),
            empty.wf(),
            empty == FilterModel::empty(n_buckets as nat),
            f@ == (AdaptiveModel {
                base: empty.insert_all(members@.take(j as int)),
                ..AdaptiveModel::empty(n_buckets as nat, cap as nat)
            }),
            f@.base.len == j,
        decreases members@.len() - j,
    {
        proof {
            assert(members@.take(j + 1).drop_last() == members@.take(j as int));
            lemma_insert_keeps_members(f@.base, members@[j as int], members@[j as int]);
        }
        f.insert(members[j]);
        j = j + 1;
    }
    proof {
        assert(members@.take(j as int) == members@);
        lemma_no_false_negatives(empty, members@);
    }
    f
}

/// Replay `stream` through `f`, marking each false positive when adapting, and
/// count the false positives at positions `>= first`.
fn run_stream(f: &mut AdaptiveFilter, stream: &[u64], adapt: bool, first: usize) -> (hits: u64)
    requires
        old(f).wf(),
        old(f)@.marks == 0,
    ensures
        final(f).wf(),
        final(f)@ == replay_state(old(f)@, stream@, adapt),
        hits == replay_hits(old(f)@, stream@, adapt, first as nat),
        final(f)@.marks <= stream@.len(),
        final(f)@.base == old(f)@.base,
        final(f)@.cap == old(f)@.cap,
        forall|x: u64| #[trigger]
            final(f)@.order.contains(x) ==> old(f)@.order.contains(x) || stream@.contains(x),
{
    let ghost start = f@;
    let n = stream.len();
    let mut hits: u64 = 0;
    let mut i: usize = 0;
    proof {
        assert(stream@.take(0) =~= Seq::<u64>::empty());
    }
    while i < n
        invariant
            f.wf(),
            n == stream@.len(),
            i <= n,
            f@ == replay_state(start, stream@.take(i as int), adapt),
            hits == replay_hits(start, stream@.take(i as int), adapt, first as nat),
            hits <= i,
            f@.marks <= i,
            f@.base == start.base,
            f@.cap == start.cap,
            forall|x: u64| #[trigger]
                f@.order.contains(x) ==> start.order.contains(x) || stream@.take(i as int).contains(x),
        decreases n - i,
    {
        let neg = stream[i];
        let ghost prev = f@;
        proof {
            assert(stream@.take(i + 1).drop_last() == stream@.take(i as int));
            assert(stream@.take(i + 1).last() == neg);
            lemma_steps_keep_wf(f@, neg);
        }
        if f.contains(neg) {
            if i >= first {
                hits = hits + 1;
            }
            if adapt {
                f.mark_false_positive(neg);
            }
        }
        proof {
            assert forall|x: u64| #[trigger] f@.order.contains(x) implies start.order.contains(x)
                || stream@.take(i + 1).contains(x) by {
                if x == neg {
                    assert(stream@.take(i + 1)[i as int] == neg);
                } else {
                    assert(prev.order.contains(x)) by {
                        let q = choose|q: int| 0 <= q < f@.order.len() && f@.order[q] == x;
                        if f@.order != prev.order {
                            if prev.order.len() >= prev.cap {
                                assert(f@.order == prev.order.drop_first().push(neg));
                                assert(prev.order[q + 1] == x);
                            } else {
                                assert(f@.order == prev.order.push(neg));
                                assert(prev.order[q] == x);
                            }
                        }
                    }
                    if stream@.take(i as int).contains(x) {
                        let q = choose|q: int| 0 <= q < i && stream@.take(i as int)[q] == x;
                        assert(stream@.take(i + 1)[q] == x);
                    }
                }
            }
        }
        i = i + 1;
    }
    proof {
        assert(stream@.take(n as int) == stream@);
        assert forall|x: u64| #[trigger] f@.order.contains(x) implies start.order.contains(x)
            || stream@.contains(x) by {
        }
    }
    hits
}

/// Whether every key of `keys` tests present in `f`.
fn all_present(f: &AdaptiveFilter, keys: &[u64]) -> (r: bool)
    requires
        f.wf(),
    ensures
        r == (forall|k: int| 0 <= k < keys@.len() ==> f@.contains(#[trigger] keys@[k])),
{
    let mut j: usize = 0;
    while j < keys.len()
        invariant
            f.wf(),
            j <= keys@.len(),
            forall|k: int| 0 <= k < j ==> f@.contains(#[trigger] keys@[k]),
        decreases keys@.len() - j,
    {
        if !f.contains(keys[j]) {
            return false;
        }
        j = j + 1;
    }
    true
}

/// Build an adaptive filter over `members` with `n_buckets` buckets, replay the
/// negative `stream`, and count the false positives over its last `window`
/// elements. With `adapt`, each false positive is marked (cap `cap`); without,
/// the guard is disabled. Finally every member is re-checked.
///
/// When the stream shares no element with `members` (every stream element is a
/// confirmed non-member), every member is still present at the end.
pub fn replay_tally(
    members: &[u64],
    n_buckets: usize,
    cap: usize,
    adapt: bool,
    stream: &[u64],
    window: usize,
) -> (t: ReplayTally)
    requires
        n_buckets > 0,
        n_buckets <= usize::MAX / SLOTS,
        stream@.len() > 0,
        cap <= usize::MAX / 16 || stream@.len() <= usize::MAX / 16,
    ensures
        ({
            let start = replay_start(members@, n_buckets as nat, cap as nat, adapt);
            let fin = replay_state(start, stream@, adapt);
            &&& t.window == effective_window(window as nat, stream@.len())
            &&& t.fp_window == replay_hits(start, stream@, adapt, (stream@.len() - t.window) as nat)
            &&& t.guard_len == fin.order.len()
            &&& t.guard_bytes == fin.order.len() * 16
            &&& t.evictions == fin.evictions
            &&& t.members_present == (forall|i: int|
                0 <= i < members@.len() ==> fin.contains(#[trigger] members@[i]))
        }),
        (forall|i: int, j: int|
            0 <= i < members@.len() && 0 <= j < stream@.len() ==> #[trigger] members@[i]
                != #[trigger] stream@[j]) ==> t.members_present,
{
    let effective_cap = if adapt {
        cap
    } else {
        0
    };
    let mut f = build_filter(members, n_buckets, effective_cap);
    let ghost start = f@;
    let n = stream.len();
    let mut w = if window < n {
        window
    } else {
        n
    };
    if w < 1 {
        w = 1;
    }
    let first = n - w;
    let fp_window = run_stream(&mut f, stream, adapt, first);
    let members_present = all_present(&f, members);
    proof {
        if forall|a: int, b: int|
            0 <= a < members@.len() && 0 <= b < stream@.len() ==> #[trigger] members@[a]
                != #[trigger] stream@[b] {
            assert forall|k: int| 0 <= k < members@.len() implies f@.contains(
                #[trigger] members@[k],
            ) by {
                assert(start.base.contains(members@[k]));
                if f@.order.contains(members@[k]) {
                    let q = choose|q: int| 0 <= q < stream@.len() && stream@[q] == members@[k];
                    assert(members@[k] != stream@[q]);
                }
            }
        }
        assert(f@.order.len() <= f@.marks);
    }
    ReplayTally {
        fp_window,
        window: w,
        guard_len: f.guard_len(),
        guard_bytes: f.guard_bytes(),
        evictions: f.evictions(),
        members_present,
    }
}

} // verus!
