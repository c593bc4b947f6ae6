//! The splitmix64 finalizer and the splitmix64 generator built on it.

use vstd::prelude::*;

verus! {

/// The Weyl increment of the splitmix64 sequence.
pub const GOLDEN_GAMMA: u64 = 0x9E37_79B9_7F4A_7C15;

/// First multiplier of the splitmix64 finalizer.
pub const MIX_MUL_1: u64 = 0xBF58_476D_1CE4_E5B9;

/// Second multiplier of the splitmix64 finalizer.
pub const MIX_MUL_2: u64 = 0x94D0_49BB_1331_11EB;

/// Addition modulo 2^64.
pub open spec fn add_wrap(a: u64, b: u64) -> u64 {
    vstd::wrapping::u64_specs::wrapping_add(a, b)
}

/// Multiplication modulo 2^64.
pub open spec fn mul_wrap(a: u64, b: u64) -> u64 {
    vstd::wrapping::u64_specs::wrapping_mul(a, b)
}

/// The splitmix64 finalizer as a mathematical function of its input.
pub open spec fn mix_spec(z0: u64) -> u64 {
    let z1 = add_wrap(z0, GOLDEN_GAMMA);
    let z2 = mul_wrap(z1 ^ (z1 >> 30u64), MIX_MUL_1);
    let z3 = mul_wrap(z2 ^ (z2 >> 27u64), MIX_MUL_2);
    z3 ^ (z3 >> 31u64)
}

/// splitmix64 finalizer: cheap, well-distributed 64-bit mixing.
pub(crate) fn mix(z: u64) -> (r: u64)
    ensures
        r == mix_spec(z),
{
    let z1 = z.wrapping_add(GOLDEN_GAMMA);
    let z2 = (z1 ^ (z1 >> 30u64)).wrapping_mul(MIX_MUL_1);
    let z3 = (z2 ^ (z2 >> 27u64)).wrapping_mul(MIX_MUL_2);
    z3 ^ (z3 >> 31u64)
}

/// The state of a splitmix64 generator after `n` draws from `seed`.
pub open spec fn state_after(seed: u64, n: nat) -> u64
    decreases n,
{
    if n == 0 {
        seed
    } else {
        add_wrap(state_after(seed, (n - 1) as nat), GOLDEN_GAMMA)
    }
}

/// The `i`-th value (counting from 0) that a generator seeded with `seed` returns.
pub open spec fn draw(seed: u64, i: nat) -> u64 {
    mix_spec(state_after(seed, i + 1))
}

/// 2^64, the modulus of `u64` arithmetic.
pub open spec fn word() -> int {
    0x1_0000_0000_0000_0000int
}

/// Wrapping addition is addition modulo 2^64.
pub proof fn lemma_add_wrap_mod(a: u64, b: u64)
    ensures
        add_wrap(a, b) as int == (a + b) % word(),
{
    if a + b > u64::MAX {
        assert((a + b) % word() == a + b - word()) by (nonlinear_arith)
            requires
                word() <= a + b < 2 * word(),
                word() == 0x1_0000_0000_0000_0000int,
        ;
    } else {
        assert((a + b) % word() == a + b) by (nonlinear_arith)
            requires
                0 <= a + b < word(),
                word() == 0x1_0000_0000_0000_0000int,
        ;
    }
}

/// After `n` draws the state is `seed + n * GOLDEN_GAMMA` modulo 2^64.
pub proof fn lemma_state_after(seed: u64, n: nat)
    ensures
        state_after(seed, n) as int == (seed + n * GOLDEN_GAMMA) % word(),
    decreases n,
{
    if n == 0 {
        assert((seed + 0 * GOLDEN_GAMMA) % word() == seed) by (nonlinear_arith)
            requires
                0 <= seed < word(),
        ;
    } else {
        lemma_state_after(seed, (n - 1) as nat);
        let prev = state_after(seed, (n - 1) as nat);
        lemma_add_wrap_mod(prev, GOLDEN_GAMMA);
        let x = seed + (n - 1) * GOLDEN_GAMMA;
        vstd::arithmetic::div_mod::lemma_add_mod_noop(x, GOLDEN_GAMMA as int, word());
        assert(GOLDEN_GAMMA as int % word() == GOLDEN_GAMMA as int);
        assert(x + GOLDEN_GAMMA == seed + n * GOLDEN_GAMMA) by (nonlinear_arith)
            requires
                x == seed + (n - 1) * GOLDEN_GAMMA,
        ;
        assert(prev as int % word() == prev as int);
    }
}

/// Multiplying by an odd constant `c` with inverse `cinv` modulo 2^64 can be undone.
proof fn lemma_mul_wrap_undo(a: u64, c: u64, cinv: int)
    requires
        (c * cinv) % word() == 1,
    ensures
        (mul_wrap(a, c) * cinv) % word() == a,
{
    let w = word();
    let ac = a as int * c as int;
    assert(mul_wrap(a, c) as int == ac % w);
    vstd::arithmetic::div_mod::lemma_mul_mod_noop_left(ac, cinv, w);
    vstd::arithmetic::mul::lemma_mul_is_associative(a as int, c as int, cinv);
    vstd::arithmetic::div_mod::lemma_mul_mod_noop_right(a as int, c * cinv, w);
    assert(a as int * 1 == a as int);
    assert((a as int) % w == a as int) by (nonlinear_arith)
        requires
            0 <= a < w,
    ;
}

/// `x ^ (x >> 30)` is undone by `y ^ (y >> 30) ^ (y >> 60)`.
proof fn lemma_xorshift30_undo(x: u64)
    by (bit_vector)
    ensures
        (x ^ (x >> 30u64)) ^ ((x ^ (x >> 30u64)) >> 30u64) ^ ((x ^ (x >> 30u64)) >> 60u64) == x,
{
}

/// `x ^ (x >> 27)` is undone by `y ^ (y >> 27) ^ (y >> 54)`.
proof fn lemma_xorshift27_undo(x: u64)
    by (bit_vector)
    ensures
        (x ^ (x >> 27u64)) ^ ((x ^ (x >> 27u64)) >> 27u64) ^ ((x ^ (x >> 27u64)) >> 54u64) == x,
{
}

/// `x ^ (x >> 31)` is undone by `y ^ (y >> 31) ^ (y >> 62)`.
proof fn lemma_xorshift31_undo(x: u64)
    by (bit_vector)
    ensures
        (x ^ (x >> 31u64)) ^ ((x ^ (x >> 31u64)) >> 31u64) ^ ((x ^ (x >> 31u64)) >> 62u64) == x,
{
}

/// The splitmix64 finalizer is injective: distinct inputs mix to distinct outputs.
pub proof fn lemma_mix_injective(a: u64, b: u64)
    requires
        mix_spec(a) == mix_spec(b),
    ensures
        a == b,
{
    let a1 = add_wrap(a, GOLDEN_GAMMA);
    let b1 = add_wrap(b, GOLDEN_GAMMA);
    let a2 = mul_wrap(a1 ^ (a1 >> 30u64), MIX_MUL_1);
    let b2 = mul_wrap(b1 ^ (b1 >> 30u64), MIX_MUL_1);
    let a3 = mul_wrap(a2 ^ (a2 >> 27u64), MIX_MUL_2);
    let b3 = mul_wrap(b2 ^ (b2 >> 27u64), MIX_MUL_2);
    lemma_xorshift31_undo(a3);
    lemma_xorshift31_undo(b3);
    assert(a3 == b3);
    let inv2 = 0x319642b2d24d8ec3int;
    assert((MIX_MUL_2 * inv2) % word() == 1);
    lemma_mul_wrap_undo(a2 ^ (a2 >> 27u64), MIX_MUL_2, inv2);
    lemma_mul_wrap_undo(b2 ^ (b2 >> 27u64), MIX_MUL_2, inv2);
    lemma_xorshift27_undo(a2);
    lemma_xorshift27_undo(b2);
    assert(a2 == b2);
    let inv1 = 0x96de1b173f119089int;
    assert((MIX_MUL_1 * inv1) % word() == 1);
    lemma_mul_wrap_undo(a1 ^ (a1 >> 30u64), MIX_MUL_1, inv1);
    lemma_mul_wrap_undo(b1 ^ (b1 >> 30u64), MIX_MUL_1, inv1);
    lemma_xorshift30_undo(a1);
    lemma_xorshift30_undo(b1);
    assert(a1 == b1);
    lemma_add_wrap_mod(a, GOLDEN_GAMMA);
    lemma_add_wrap_mod(b, GOLDEN_GAMMA);
    assert((a + GOLDEN_GAMMA) % word() == (b + GOLDEN_GAMMA) % word());
    assert(a == b) by (nonlinear_arith)
        requires
            (a + GOLDEN_GAMMA) % word() == (b + GOLDEN_GAMMA) % word(),
            0 <= a < word(),
            0 <= b < word(),
            0 <= GOLDEN_GAMMA < word(),
            word() == 0x1_0000_0000_0000_0000int,
    ;
}

/// A generator returns pairwise distinct values over its first 2^64 draws.
#[verifier::spinoff_prover]
pub proof fn lemma_draws_distinct(seed: u64, i: nat, j: nat)
    requires
        i < word(),
        j < word(),
        draw(seed, i) == draw(seed, j),
    ensures
        i == j,
{
    lemma_mix_injective(state_after(seed, i + 1), state_after(seed, j + 1));
    lemma_state_after(seed, i + 1);
    lemma_state_after(seed, j + 1);
    let w = word();
    let x = seed + (i + 1) * GOLDEN_GAMMA;
    let y = seed + (j + 1) * GOLDEN_GAMMA;
    vstd::arithmetic::div_mod::lemma_fundamental_div_mod(x, w);
    vstd::arithmetic::div_mod::lemma_fundamental_div_mod(y, w);
    let k = x / w - y / w;
    let d = i - j;
    assert(d * GOLDEN_GAMMA == w * k) by (nonlinear_arith)
        requires
            x == w * (x / w) + x % w,
            y == w * (y / w) + y % w,
            x % w == y % w,
            x == seed + (i + 1) * GOLDEN_GAMMA,
            y == seed + (j + 1) * GOLDEN_GAMMA,
            k == x / w - y / w,
            d == i - j,
    ;
    let ginv = 0xf1de83e19937733dint;
    let t = (GOLDEN_GAMMA * ginv) / w;
    assert(GOLDEN_GAMMA * ginv == w * t + 1);
    assert(d == w * (k * ginv - d * t)) by (nonlinear_arith)
        requires
            d * GOLDEN_GAMMA == w * k,
            GOLDEN_GAMMA * ginv == w * t + 1,
    ;
    let m = k * ginv - d * t;
    assert(d == 0) by (nonlinear_arith)
        requires
            d == w * m,
            -w < d < w,
            w > 0,
    ;
}

/// `y ^ (y >> 30) ^ (y >> 60)` is undone by `x ^ (x >> 30)`.
proof fn lemma_xorshift30_redo(y: u64)
    by (bit_vector)
    ensures
        (y ^ (y >> 30u64) ^ (y >> 60u64)) ^ ((y ^ (y >> 30u64) ^ (y >> 60u64)) >> 30u64) == y,
{
}

/// `y ^ (y >> 27) ^ (y >> 54)` is undone by `x ^ (x >> 27)`.
proof fn lemma_xorshift27_redo(y: u64)
    by (bit_vector)
    ensures
        (y ^ (y >> 27u64) ^ (y >> 54u64)) ^ ((y ^ (y >> 27u64) ^ (y >> 54u64)) >> 27u64) == y,
{
}

/// `y ^ (y >> 31) ^ (y >> 62)` is undone by `x ^ (x >> 31)`.
proof fn lemma_xorshift31_redo(y: u64)
    by (bit_vector)
    ensures
        (y ^ (y >> 31u64) ^ (y >> 62u64)) ^ ((y ^ (y >> 31u64) ^ (y >> 62u64)) >> 31u64) == y,
{
}

/// The inverse of `MIX_MUL_1` modulo 2^64.
pub open spec fn mix_mul_1_inverse() -> u64 {
    0x96de1b173f119089u64
}

/// The inverse of `MIX_MUL_2` modulo 2^64.
pub open spec fn mix_mul_2_inverse() -> u64 {
    0x319642b2d24d8ec3u64
}

/// The input that the splitmix64 finalizer maps to `y`.
pub open spec fn unmix(y: u64) -> u64 {
    let z3 = y ^ (y >> 31u64) ^ (y >> 62u64);
    let y2 = mul_wrap(z3, mix_mul_2_inverse());
    let z2 = y2 ^ (y2 >> 27u64) ^ (y2 >> 54u64);
    let y1 = mul_wrap(z2, mix_mul_1_inverse());
    let z1 = y1 ^ (y1 >> 30u64) ^ (y1 >> 60u64);
    add_wrap(z1, (word() - GOLDEN_GAMMA) as u64)
}

/// The splitmix64 finalizer is onto: every 64-bit value is the mix of some input.
pub proof fn lemma_mix_surjective(y: u64)
    ensures
        mix_spec(unmix(y)) == y,
{
    let z3 = y ^ (y >> 31u64) ^ (y >> 62u64);
    let y2 = mul_wrap(z3, mix_mul_2_inverse());
    let z2 = y2 ^ (y2 >> 27u64) ^ (y2 >> 54u64);
    let y1 = mul_wrap(z2, mix_mul_1_inverse());
    let z1 = y1 ^ (y1 >> 30u64) ^ (y1 >> 60u64);
    let z0 = unmix(y);
    let ng = (word() - GOLDEN_GAMMA) as u64;
    lemma_add_wrap_mod(z1, ng);
    lemma_add_wrap_mod(z0, GOLDEN_GAMMA);
    assert(add_wrap(z0, GOLDEN_GAMMA) == z1) by (nonlinear_arith)
        requires
            z0 as int == (z1 + ng) % word(),
            add_wrap(z0, GOLDEN_GAMMA) as int == (z0 + GOLDEN_GAMMA) % word(),
            ng + GOLDEN_GAMMA == word(),
            0 <= z1 < word(),
            0 <= z0 < word(),
            word() == 0x1_0000_0000_0000_0000int,
    ;
    lemma_xorshift30_redo(y1);
    assert((mix_mul_1_inverse() * MIX_MUL_1) % word() == 1);
    lemma_mul_wrap_undo(z2, mix_mul_1_inverse(), MIX_MUL_1 as int);
    assert(mul_wrap(y1, MIX_MUL_1) == z2);
    lemma_xorshift27_redo(y2);
    assert((mix_mul_2_inverse() * MIX_MUL_2) % word() == 1);
    lemma_mul_wrap_undo(z3, mix_mul_2_inverse(), MIX_MUL_2 as int);
    assert(mul_wrap(y2, MIX_MUL_2) == z3);
    lemma_xorshift31_redo(y);
}

/// The seed whose first draw is `y`.
pub open spec fn seed_for_first_draw(y: u64) -> u64 {
    add_wrap(unmix(y), (word() - GOLDEN_GAMMA) as u64)
}

/// Every 64-bit value is the first draw of some seed.
pub proof fn lemma_first_draw_reaches(y: u64)
    ensures
        draw(seed_for_first_draw(y), 0) == y,
{
    let u = unmix(y);
    let s = seed_for_first_draw(y);
    let ng = (word() - GOLDEN_GAMMA) as u64;
    lemma_add_wrap_mod(u, ng);
    lemma_add_wrap_mod(s, GOLDEN_GAMMA);
    assert(add_wrap(s, GOLDEN_GAMMA) == u) by (nonlinear_arith)
        requires
            s as int == (u + ng) % word(),
            add_wrap(s, GOLDEN_GAMMA) as int == (s + GOLDEN_GAMMA) % word(),
            ng + GOLDEN_GAMMA == word(),
            0 <= u < word(),
            0 <= s < word(),
            word() == 0x1_0000_0000_0000_0000int,
    ;
    assert(state_after(s, 1) == add_wrap(state_after(s, 0), GOLDEN_GAMMA));
    lemma_mix_surjective(y);
}

/// splitmix64 PRNG for self-contained, deterministic key and stream generation.
pub struct SplitMix64 {
    state: u64,
}

impl View for SplitMix64 {
    type V = u64;

    /// The generator is its 64-bit state.
    closed spec fn view(&self) -> u64 {
        self.state
    }
}

impl SplitMix64 {
    /// A generator whose state is `seed`.
    pub fn new(seed: u64) -> (r: Self)
        ensures
            r@ == seed,
    {
        Self { state: seed }
    }

    /// Advance the state by the Weyl increment and return the mixed new state.
    pub fn next_u64(&mut self) -> (r: u64)
        ensures
            final(self)@ == add_wrap(old(self)@, GOLDEN_GAMMA),
            r == mix_spec(final(self)@),
    {
        self.state = self.state.wrapping_add(GOLDEN_GAMMA);
        mix(self.state)
    }
}

} // verus!
