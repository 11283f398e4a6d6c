use vstd::prelude::*;
use crate::binary64::{
    scaled_index,
    round_to_binary64,
    lemma_scaled_index_range,
    lemma_bit_len_at_most,
    lemma_pow2_le,
    lemma_pow2_constants,
};

verus! {

/// Multiplier of the generator (Knuth's MMIX constant).
pub const LCG_A: u64 = 6364136223846793005;

/// Increment of the generator.
pub const LCG_C: u64 = 1442695040888963407;

/// The state a seed starts the generator in: a zero seed is replaced by one.
pub open spec fn seed_state(seed: u64) -> u64 {
    if seed == 0 { 1 } else { seed }
}

/// One step of the generator: `x' = (A * x + C) mod 2^64`.
pub open spec fn lcg_step(x: u64) -> u64 {
    ((LCG_A as nat * x as nat + LCG_C as nat) % 0x1_0000_0000_0000_0000) as u64
}

/// The 53 high bits of a state. A draw stands for the fraction
/// `high_bits(x) / 2^53` in `[0, 1)`, which an `f64` holds exactly.
pub open spec fn high_bits(x: u64) -> nat {
    x as nat / 2048
}

/// State of a generator seeded with `seed` after `i` draws; draw number
/// `i` (counting from one) returns `state_after(seed, i)`.
pub open spec fn state_after(seed: u64, i: nat) -> u64
    decreases i,
{
    if i == 0 {
        seed_state(seed)
    } else {
        lcg_step(state_after(seed, (i - 1) as nat))
    }
}

/// The multiplicative inverse of `LCG_A` modulo `2^64`.
pub open spec fn lcg_a_inverse() -> int {
    13877824140714322085
}

/// One step can be undone: `x == A^-1 * (step(x) - C) mod 2^64`.
pub proof fn lemma_step_invertible(x: u64)
    ensures
        x as int == (lcg_a_inverse() * (lcg_step(x) as int - LCG_C as int)) % 0x1_0000_0000_0000_0000,
{
    let m: int = 0x1_0000_0000_0000_0000;
    let a: int = LCG_A as int;
    let c: int = LCG_C as int;
    let inv: int = lcg_a_inverse();
    let j: int = 4787856489426250814;
    assert(inv * a == 1 + j * m);
    let t: int = a * x + c;
    let k: int = t / m;
    let st: int = t % m;
    vstd::arithmetic::div_mod::lemma_fundamental_div_mod(t, m);
    assert(t == m * k + st);
    assert(lcg_step(x) as int == st) by {
        assert(t >= 0) by (nonlinear_arith)
            requires t == a * x + c, a >= 0, x >= 0, c >= 0;
    }
    assert(inv * (st - c) == m * (j * x - inv * k) + x) by (nonlinear_arith)
        requires
            inv * a == 1 + j * m,
            t == a * x + c,
            t == m * k + st,
    ;
    vstd::arithmetic::div_mod::lemma_mod_multiples_vanish(j * x - inv * k, x as int, m);
    vstd::arithmetic::div_mod::lemma_small_mod(x as nat, m as nat);
}

/// Distinct states step to distinct states.
pub proof fn lemma_step_injective(x: u64, y: u64)
    ensures
        (lcg_step(x) == lcg_step(y)) == (x == y),
{
    lemma_step_invertible(x);
    lemma_step_invertible(y);
}

/// A generator's stream is determined by its seed, and two seeds give
/// streams that agree at some draw exactly when they give the same start
/// state (seed 0 starts like seed 1; any other two seeds never meet).
pub proof fn lemma_stream_determined_by_seed(s1: u64, s2: u64, i: nat)
    ensures
        (state_after(s1, i) == state_after(s2, i)) == (seed_state(s1) == seed_state(s2)),
    decreases i,
{
    if i > 0 {
        lemma_stream_determined_by_seed(s1, s2, (i - 1) as nat);
        lemma_step_injective(state_after(s1, (i - 1) as nat), state_after(s2, (i - 1) as nat));
    }
}

/// One step multiplies by 6364136223846793005 and adds 1442695040888963407,
/// modulo `2^64`.
pub proof fn lemma_step_formula(x: u64)
    ensures
        lcg_step(x) as int == (6364136223846793005 * x as int + 1442695040888963407) % 0x1_0000_0000_0000_0000,
{
}

/// A nonzero seed is the generator's start state; only seed 0 is mapped,
/// to state 1.
pub proof fn lemma_seed_is_start_state(seed: u64)
    ensures
        seed != 0 ==> seed_state(seed) == seed,
        seed == 0 ==> seed_state(seed) == 1,
{
}

/// Two different nonzero seeds give streams that differ at every draw.
pub proof fn lemma_distinct_nonzero_seeds_never_meet(s1: u64, s2: u64, i: nat)
    requires
        s1 != 0,
        s2 != 0,
        s1 != s2,
    ensures
        state_after(s1, i) != state_after(s2, i),
{
    lemma_seed_is_start_state(s1);
    lemma_seed_is_start_state(s2);
    lemma_stream_determined_by_seed(s1, s2, i);
}

/// `wrapping_add(wrapping_mul(A, x), C)` is one step of the generator.
proof fn lemma_wrapping_step(x: u64, product: u64)
    requires
        product == ((LCG_A as nat * x as nat) % 0x1_0000_0000_0000_0000) as u64,
    ensures
        (if product + LCG_C > u64::MAX {
            (product + LCG_C - 0x1_0000_0000_0000_0000) as u64
        } else {
            (product + LCG_C) as u64
        }) == lcg_step(x),
{
    let ax: int = LCG_A as int * x as int;
    let m: int = 0x1_0000_0000_0000_0000;
    vstd::arithmetic::div_mod::lemma_add_mod_noop(ax, LCG_C as int, m);
    vstd::arithmetic::div_mod::lemma_mod_self_0(m);
    let sum: int = product as int + LCG_C as int;
    if sum >= m {
        vstd::arithmetic::div_mod::lemma_mod_sub_multiples_vanish(sum, m);
        vstd::arithmetic::div_mod::lemma_small_mod((sum - m) as nat, m as nat);
    } else {
        vstd::arithmetic::div_mod::lemma_small_mod(sum as nat, m as nat);
    }
    vstd::arithmetic::div_mod::lemma_small_mod(LCG_C as nat, m as nat);
}

/// A simple LCG-based pseudo-random number generator.
#[derive(Debug, Clone)]
pub struct Lcg {
    state: u64,
}

impl View for Lcg {
    type V = u64;

    closed spec fn view(&self) -> u64 {
        self.state
    }
}

impl Lcg {
    /// Create a new LCG with the given seed.
    pub fn new(seed: u64) -> (r: Self)
        ensures
            r@ == seed_state(seed),
            seed != 0 ==> r@ == seed,
            seed == 0 ==> r@ == 1,
    {
        Lcg { state: if seed == 0 { 1 } else { seed } }
    }

    /// Generate the next random u64: the new state of the generator.
    pub fn next_u64(&mut self) -> (r: u64)
        ensures
            r == lcg_step(old(self)@),
            r as int == (6364136223846793005 * old(self)@ as int + 1442695040888963407) % 0x1_0000_0000_0000_0000,
            final(self)@ == r,
    {
        let product = LCG_A.wrapping_mul(self.state);
        proof {
            lemma_wrapping_step(self.state, product);
        }
        self.state = product.wrapping_add(LCG_C);
        self.state
    }

    /// Advance the generator and return the 53 high bits of the new state:
    /// the numerator of a uniform fraction in `[0, 1)` with denominator `2^53`.
    pub fn next_u53(&mut self) -> (r: u64)
        ensures
            final(self)@ == lcg_step(old(self)@),
            r == high_bits(final(self)@),
            r * 2048 <= final(self)@ < (r + 1) * 2048,
            r < 0x20_0000_0000_0000,
    {
        self.next_u64() / 2048
    }

    /// Generate a random usize in `[0, n)`: the fraction of the next draw
    /// times `n`, computed as `f64` arithmetic computes it and truncated.
    /// For `n == 0` the result is `0`.
    pub fn next_usize(&mut self, n: usize) -> (r: usize)
        ensures
            final(self)@ == lcg_step(old(self)@),
            r == scaled_index(high_bits(lcg_step(old(self)@)), n as nat),
            n > 0 ==> r < n,
            n == 0 ==> r == 0,
    {
        let bits = self.next_u53();
        proof {
            lemma_pow2_constants();
            lemma_bit_len_at_most(n as nat, 64);
            lemma_pow2_le(crate::binary64::bit_len(n as nat), 64);
            lemma_scaled_index_range(bits as nat, n as nat);
        }
        let nf = round_to_binary64(n as u128);
        assert(bits as u128 * nf < 0x20_0000_0000_0000_0000_0000_0000_0000) by (nonlinear_arith)
            requires
                bits < 0x20_0000_0000_0000u64,
                nf <= 0x1_0000_0000_0000_0000u128,
        ;
        let p = bits as u128 * nf;
        let rounded = round_to_binary64(p);
        let idx = rounded / 0x20_0000_0000_0000;
        idx as usize
    }
}

} // verus!
