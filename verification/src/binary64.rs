//! Exact integer model of the binary64 (`f64`) rounding that the generator's
//! index draw goes through: round-to-nearest, ties-to-even, to 53 significant
//! bits. Every value handled here is a non-negative integer, so the model
//! needs no exponent range, no subnormals and no infinities.

use vstd::prelude::*;
use vstd::arithmetic::power2::{
    pow2,
    lemma_pow2_pos,
    lemma_pow2_adds,
    lemma_pow2_unfold,
    lemma_pow2_strictly_increases,
};

verus! {

/// Number of significant bits of a binary64 value.
pub const SIGNIFICAND_BITS: u32 = 53;

/// Number of binary digits of `x` (zero has none).
pub open spec fn bit_len(x: nat) -> nat
    decreases x,
{
    if x == 0 {
        0
    } else {
        1 + bit_len(x / 2)
    }
}

/// How many low bits of `x` fall below the 53 significant bits.
pub open spec fn dropped_bits(x: nat) -> nat {
    if bit_len(x) > 53 {
        (bit_len(x) - 53) as nat
    } else {
        0
    }
}

/// `x` rounded to 53 significant bits, to nearest, ties to the even
/// significand: the value that converting `x` to `f64` gives.
pub open spec fn round_f64(x: nat) -> nat {
    let unit = pow2(dropped_bits(x));
    let q = x / unit;
    let r = x % unit;
    if 2 * r > unit || (2 * r == unit && q % 2 == 1) {
        (q + 1) * unit
    } else {
        q * unit
    }
}

/// Bounds of `x` given by its number of binary digits.
pub proof fn lemma_bit_len_bounds(x: nat)
    ensures
        x < pow2(bit_len(x)),
        x > 0 ==> pow2((bit_len(x) - 1) as nat) <= x,
        x > 0 ==> bit_len(x) >= 1,
    decreases x,
{
    vstd::arithmetic::power2::lemma2_to64();
    if x > 0 {
        lemma_bit_len_bounds(x / 2);
        lemma_pow2_unfold(bit_len(x));
        if x / 2 > 0 {
            lemma_pow2_unfold((bit_len(x) - 1) as nat);
        } else {
            assert(x == 1);
            assert(bit_len(x) == 1);
        }
    }
}

/// `pow2` is monotone.
pub proof fn lemma_pow2_le(a: nat, b: nat)
    requires
        a <= b,
    ensures
        pow2(a) <= pow2(b),
{
    if a < b {
        lemma_pow2_strictly_increases(a, b);
    }
}

/// A value below `2^k` has at most `k` binary digits.
pub proof fn lemma_bit_len_at_most(x: nat, k: nat)
    requires
        x < pow2(k),
    ensures
        bit_len(x) <= k,
{
    lemma_bit_len_bounds(x);
    if bit_len(x) > k {
        lemma_pow2_le(k, (bit_len(x) - 1) as nat);
    }
}

/// A value of at least `2^k` has more than `k` binary digits.
pub proof fn lemma_bit_len_at_least(x: nat, k: nat)
    requires
        pow2(k) <= x,
    ensures
        bit_len(x) >= k + 1,
{
    lemma_bit_len_bounds(x);
    if bit_len(x) <= k {
        lemma_pow2_le(bit_len(x), k);
    }
}

/// What rounding to 53 significant bits does to `x`: the result is a
/// multiple `m * 2^s` of the unit of the last kept bit, lies within half a
/// unit of `x`, and stays within `x`'s binade or reaches the next power of two.
pub proof fn lemma_round_f64_facts(x: nat) -> (m: nat)
    ensures
        round_f64(x) == m * pow2(dropped_bits(x)),
        m <= pow2(53),
        2 * (round_f64(x) - x) <= pow2(dropped_bits(x)),
        2 * (x - round_f64(x)) <= pow2(dropped_bits(x)),
        round_f64(x) <= pow2(bit_len(x)),
        x > 0 ==> pow2((bit_len(x) - 1) as nat) <= round_f64(x),
        dropped_bits(x) == 0 ==> round_f64(x) == x,
        x % pow2(dropped_bits(x)) == 0 ==> round_f64(x) == x,
{
    let s = dropped_bits(x);
    let unit = pow2(s);
    lemma_pow2_pos(s);
    let q = x / unit;
    let r = x % unit;
    vstd::arithmetic::div_mod::lemma_fundamental_div_mod(x as int, unit as int);
    assert(x == q * unit + r);
    assert(0 <= r < unit);
    lemma_bit_len_bounds(x);
    let up = 2 * r > unit || (2 * r == unit && q % 2 == 1);
    let m: nat = if up { (q + 1) as nat } else { q };
    assert(round_f64(x) == m * unit);
    if up {
        assert((q + 1) * unit == q * unit + unit) by (nonlinear_arith);
    }
    if s == 0 {
        assert(unit == 1) by {
            vstd::arithmetic::power2::lemma2_to64();
        }
        assert(x / 1 == x);
        assert(x % 1 == 0);
        assert(q == x);
        assert(r == 0);
        assert(m == q);
        assert(round_f64(x) == x);
        if bit_len(x) <= 53 {
            lemma_pow2_le(bit_len(x), 53);
        }
        assert(m <= pow2(53));
    } else {
        let bl = bit_len(x);
        assert(bl == s + 53);
        lemma_pow2_adds(53, s);
        assert(pow2(bl) == pow2(53) * unit);
        assert(q < pow2(53)) by {
            if q >= pow2(53) {
                assert(q * unit >= pow2(53) * unit) by (nonlinear_arith)
                    requires q >= pow2(53), unit > 0;
            }
        }
        assert(m <= pow2(53));
        assert(m * unit <= pow2(53) * unit) by (nonlinear_arith)
            requires m <= pow2(53), unit > 0;
        lemma_pow2_adds(52, s);
        assert(pow2((bl - 1) as nat) == pow2(52) * unit);
        assert(q >= pow2(52)) by {
            if q < pow2(52) {
                assert(q + 1 <= pow2(52));
                assert((q + 1) * unit <= pow2(52) * unit) by (nonlinear_arith)
                    requires q + 1 <= pow2(52), unit > 0;
                assert((q + 1) * unit == q * unit + unit) by (nonlinear_arith);
            }
        }
        assert(m * unit >= pow2(52) * unit) by (nonlinear_arith)
            requires m >= pow2(52), unit > 0;
    }
    m
}

/// The index that `(bits / 2^53) * (n as f64)` truncated to an integer
/// gives in binary64 arithmetic: `n` is rounded to 53 significant bits, the
/// exact product `bits * nf / 2^53` is rounded to 53 significant bits, and
/// the result is truncated. (Scaling by `2^53` commutes with the rounding,
/// so the product is rounded as the integer `bits * nf`.)
pub open spec fn scaled_index(bits: nat, n: nat) -> nat {
    round_f64(bits * round_f64(n)) / pow2(53)
}

/// For `bits < 2^53` (a fraction in `[0, 1)`) and `n > 0`, the scaled index
/// lies in `[0, n)`; for `n == 0` it is zero.
pub proof fn lemma_scaled_index_range(bits: nat, n: nat)
    requires
        bits < pow2(53),
    ensures
        n > 0 ==> scaled_index(bits, n) < n,
        n == 0 ==> scaled_index(bits, n) == 0,
{
    let d = pow2(53);
    lemma_pow2_pos(53);
    let nf = round_f64(n);
    let mn = lemma_round_f64_facts(n);
    let p = bits * nf;
    let mp = lemma_round_f64_facts(p);
    let r = round_f64(p);
    if n == 0 {
        assert(bit_len(0) == 0);
        assert(nf == 0);
        assert(p == 0) by (nonlinear_arith)
            requires p == bits * nf, nf == 0;
        assert(bit_len(p) == 0);
        assert(r == 0);
        assert(r / d == 0);
    } else {
        let b = bit_len(n);
        let sn = dropped_bits(n);
        let sp = dropped_bits(p);
        lemma_bit_len_bounds(n);
        lemma_bit_len_bounds(p);
        lemma_pow2_pos(sn);
        lemma_pow2_pos(sp);
        assert(nf >= 1) by {
            lemma_pow2_pos((b - 1) as nat);
        }
        assert(p <= d * nf - nf) by (nonlinear_arith)
            requires p == bits * nf, bits < d, nf >= 1;
        if nf <= n {
            if r >= n * d {
                assert(n * d >= nf * d) by (nonlinear_arith)
                    requires nf <= n;
                assert(2 * nf <= pow2(sp));
                if sp == 0 {
                    vstd::arithmetic::power2::lemma2_to64();
                    assert(false);
                } else {
                    assert(bit_len(p) == sp + 53);
                    assert(p > 0);
                    lemma_pow2_adds(52, sp);
                    lemma_pow2_unfold(53);
                    assert((bit_len(p) - 1) as nat == 52 + sp);
                    assert(p >= pow2(52) * pow2(sp));
                    assert(pow2(52) * pow2(sp) >= pow2(52) * (2 * nf)) by (nonlinear_arith)
                        requires pow2(sp) >= 2 * nf;
                    assert(pow2(52) * (2 * nf) == d * nf) by (nonlinear_arith)
                        requires d == 2 * pow2(52);
                    assert(false);
                }
            }
        } else {
            assert(sn > 0);
            assert(b == sn + 53);
            lemma_pow2_adds(53, sn);
            lemma_pow2_unfold(b);
            assert(pow2(b) == d * pow2(sn));
            assert(d * (2 * (nf - n)) <= d * pow2(sn)) by (nonlinear_arith)
                requires 2 * (nf - n) <= pow2(sn), d > 0;
            assert(d * (nf - n) <= pow2((b - 1) as nat)) by (nonlinear_arith)
                requires d * (2 * (nf - n)) <= 2 * pow2((b - 1) as nat);
            lemma_pow2_adds(52, sn);
            assert(pow2((b - 1) as nat) == pow2(52) * pow2(sn));
            assert(n > pow2((b - 1) as nat)) by {
                if n == pow2((b - 1) as nat) {
                    vstd::arithmetic::div_mod::lemma_mod_multiples_basic(
                        pow2(52) as int,
                        pow2(sn) as int,
                    );
                    assert(n % pow2(sn) == 0);
                }
            }
            lemma_pow2_adds(53, (b - 1) as nat);
            assert(53 + (b - 1) as nat == b + 52);
            assert(pow2(b + 52) == d * pow2((b - 1) as nat));
            assert(n * d > pow2((b - 1) as nat) * d) by (nonlinear_arith)
                requires n > pow2((b - 1) as nat), d > 0;
            if p < pow2(b + 52) {
                lemma_bit_len_at_most(p, b + 52);
                lemma_pow2_le(bit_len(p), b + 52);
                assert(r <= pow2(b + 52));
                assert(d * pow2((b - 1) as nat) == pow2((b - 1) as nat) * d) by (nonlinear_arith);
                assert(r < n * d);
            } else {
                lemma_bit_len_at_least(p, b + 52);
                assert(d * nf <= d * pow2(b)) by (nonlinear_arith)
                    requires nf <= pow2(b);
                lemma_pow2_adds(53, b);
                lemma_bit_len_at_most(p, b + 53);
                assert(sp == b);
                assert(d * nf == mn * pow2(b)) by (nonlinear_arith)
                    requires nf == mn * pow2(sn), pow2(b) == d * pow2(sn);
                assert(r < d * nf);
                assert(mp < mn) by (nonlinear_arith)
                    requires r == mp * pow2(b), r < mn * pow2(b), pow2(b) > 0;
                assert(r <= d * nf - pow2(b)) by (nonlinear_arith)
                    requires r == mp * pow2(b), mp + 1 <= mn, d * nf == mn * pow2(b);
                assert(d * (nf - n) == d * nf - n * d) by (nonlinear_arith);
                lemma_pow2_pos((b - 1) as nat);
                assert(r < n * d);
            }
        }
        assert(r < n * d);
        vstd::arithmetic::div_mod::lemma_multiply_divide_lt(r as int, d as int, n as int);
    }
}

/// `2^64`, `2^74`, `2^117` and `2^127` as concrete numbers.
pub proof fn lemma_pow2_constants()
    ensures
        pow2(53) == 0x20_0000_0000_0000,
        pow2(64) == 0x1_0000_0000_0000_0000,
        pow2(74) == 0x400_0000_0000_0000_0000,
        pow2(117) == 0x20_0000_0000_0000_0000_0000_0000_0000,
        pow2(127) == 0x8000_0000_0000_0000_0000_0000_0000_0000,
{
    vstd::arithmetic::power2::lemma2_to64();
    vstd::arithmetic::power2::lemma2_to64_rest();
    lemma_pow2_adds(64, 10);
    lemma_pow2_adds(64, 53);
    lemma_pow2_adds(64, 63);
}

/// Round `x` to 53 significant bits, to nearest with ties to even: the
/// integer value of `x as f64`.
pub fn round_to_binary64(x: u128) -> (r: u128)
    requires
        x < 0x8000_0000_0000_0000_0000_0000_0000_0000,
    ensures
        r == round_f64(x as nat),
        r <= pow2(bit_len(x as nat)),
{
    proof {
        lemma_pow2_constants();
        lemma_bit_len_at_most(x as nat, 127);
    }
    let ghost m = lemma_round_f64_facts(x as nat);
    let mut len: u32 = 0;
    let mut y: u128 = x;
    while y > 0
        invariant
            bit_len(x as nat) == len + bit_len(y as nat),
            bit_len(x as nat) <= 127,
        decreases y,
    {
        y = y / 2;
        len = len + 1;
    }
    if len <= SIGNIFICAND_BITS {
        return x;
    }
    let shift: u32 = len - SIGNIFICAND_BITS;
    let mut unit: u128 = 1;
    let mut i: u32 = 0;
    proof {
        vstd::arithmetic::power2::lemma2_to64();
    }
    while i < shift
        invariant
            i <= shift,
            shift <= 74,
            unit == pow2(i as nat),
            pow2(74) == 0x400_0000_0000_0000_0000,
        decreases shift - i,
    {
        proof {
            lemma_pow2_unfold((i + 1) as nat);
            lemma_pow2_le((i + 1) as nat, 74);
        }
        unit = unit * 2;
        i = i + 1;
    }
    proof {
        lemma_pow2_pos(shift as nat);
        lemma_pow2_le(shift as nat, 74);
        lemma_pow2_le(bit_len(x as nat), 127);
    }
    let q = x / unit;
    let rem = x % unit;
    if rem * 2 > unit || (rem * 2 == unit && q % 2 == 1) {
        proof {
            assert(dropped_bits(x as nat) == shift);
            assert((q + 1) * unit == q * unit + unit) by (nonlinear_arith);
        }
        q * unit + unit
    } else {
        proof {
            assert(dropped_bits(x as nat) == shift);
        }
        q * unit
    }
}

} // verus!
