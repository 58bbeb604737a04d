//! The binary64 number nearest to a 64-bit integer, as its 64 bits: sign,
//! eleven bits of exponent, fifty-two bits of fraction. Integers of more than
//! fifty-three bits are rounded to the nearest number, a tie to the even one.

use vstd::prelude::*;
use vstd::arithmetic::power2::{lemma2_to64, lemma2_to64_rest, lemma_pow2_adds, lemma_pow2_pos,
    lemma_pow2_strictly_increases, lemma_pow2_unfold, pow2};
use vstd::bits::{lemma_u64_shl_is_mul, lemma_u64_shr_is_div};

verus! {

/// The bit of a binary64 number that says it is negative.
pub const SIGN_BIT: u64 = 0x8000_0000_0000_0000;

/// The weight of the lowest bit of the exponent, and the hidden leading bit
/// of the significand: 2 to the 52.
pub const HIDDEN_BIT: u64 = 0x10_0000_0000_0000;

/// `v` without its sign.
pub open spec fn magnitude(v: int) -> nat {
    if v < 0 {
        (-v) as nat
    } else {
        v as nat
    }
}

/// The number of binary digits of `m`; none for 0.
pub open spec fn bit_length(m: nat) -> nat
    decreases m,
{
    if m == 0 {
        0
    } else {
        1 + bit_length(m / 2)
    }
}

/// `m / d` rounded to the nearest integer, a tie to the even one.
pub open spec fn round_half_even(m: nat, d: nat) -> nat {
    let q = m / d;
    let r = m % d;
    if 2 * r > d || (2 * r == d && q % 2 == 1) {
        q + 1
    } else {
        q
    }
}

/// The fifty-three-bit significand of `m`: `m` moved up to fifty-three bits,
/// or rounded down to them. Rounding up may give 2 to the 53.
pub open spec fn significand(m: nat) -> nat {
    let n = bit_length(m);
    if n <= 53 {
        m * pow2((53 - n) as nat)
    } else {
        round_half_even(m, pow2((n - 53) as nat))
    }
}

/// The bits of the binary64 number nearest to `v`.
pub open spec fn double_bits(v: int) -> u64 {
    if v == 0 {
        0
    } else {
        let m = magnitude(v);
        let sign: int = if v < 0 {
            SIGN_BIT as int
        } else {
            0
        };
        (sign + (bit_length(m) + 1022) * HIDDEN_BIT + (significand(m) - HIDDEN_BIT)) as u64
    }
}

/// A positive number lies between the powers of two around its bit length.
pub proof fn lemma_bit_length_bounds(m: nat)
    requires
        m > 0,
    ensures
        bit_length(m) >= 1,
        pow2((bit_length(m) - 1) as nat) <= m < pow2(bit_length(m)),
    decreases m,
{
    lemma2_to64();
    if m == 1 {
        assert(bit_length(1) == 1 + bit_length(0));
    } else {
        let h = m / 2;
        lemma_bit_length_bounds(h);
        let k = bit_length(h);
        lemma_pow2_unfold(k);
        lemma_pow2_unfold(k + 1);
    }
}

/// A number below 2 to the `n` has at most `n` bits.
pub proof fn lemma_bit_length_at_most(m: nat, n: nat)
    requires
        m < pow2(n),
    ensures
        bit_length(m) <= n,
{
    if m > 0 {
        lemma_bit_length_bounds(m);
        if bit_length(m) > n {
            let k = (bit_length(m) - 1) as nat;
            if n < k {
                lemma_pow2_strictly_increases(n, k);
            }
        }
    }
}

/// The significand of a positive number has fifty-three bits, or is 2 to the
/// 53 after rounding up.
pub proof fn lemma_significand_bounds(m: nat)
    requires
        m > 0,
    ensures
        HIDDEN_BIT <= significand(m) <= 2 * HIDDEN_BIT,
        bit_length(m) <= 53 ==> significand(m) < 2 * HIDDEN_BIT,
{
    lemma2_to64();
    lemma2_to64_rest();
    lemma_bit_length_bounds(m);
    let n = bit_length(m);
    if n <= 53 {
        let up = (53 - n) as nat;
        lemma_pow2_adds((n - 1) as nat, up);
        lemma_pow2_adds(n, up);
        lemma_pow2_pos(up);
        assert(pow2((n - 1) as nat) * pow2(up) <= m * pow2(up)) by (nonlinear_arith)
            requires
                pow2((n - 1) as nat) <= m,
        ;
        assert(m * pow2(up) < pow2(n) * pow2(up)) by (nonlinear_arith)
            requires
                m < pow2(n),
                pow2(up) > 0,
        ;
    } else {
        let down = (n - 53) as nat;
        let d = pow2(down);
        lemma_pow2_pos(down);
        lemma_pow2_adds(52, down);
        lemma_pow2_adds(53, down);
        let q = m / d;
        assert(HIDDEN_BIT <= q < 2 * HIDDEN_BIT) by (nonlinear_arith)
            requires
                d > 0,
                q == m / d,
                HIDDEN_BIT * d <= m,
                m < 2 * HIDDEN_BIT * d,
        ;
    }
}

/// What rounding changes is at most half of the divisor.
pub proof fn lemma_rounding_error(m: nat, d: nat)
    requires
        d > 0,
    ensures
        2 * (round_half_even(m, d) * d - m) <= d,
        2 * (m - round_half_even(m, d) * d) <= d,
{
    let q = m / d;
    let r = m % d;
    assert(m == q * d + r && 0 <= r < d) by (nonlinear_arith)
        requires
            d > 0,
            q == m / d,
            r == m % d,
    ;
    assert((q + 1) * d == q * d + d) by (nonlinear_arith);
}

/// The number of binary digits of `m`.
fn bit_len(m: u64) -> (n: u64)
    ensures
        n == bit_length(m as nat),
        n <= 64,
{
    proof {
        lemma2_to64_rest();
        lemma_bit_length_at_most(m as nat, 64);
    }
    let mut n: u64 = 0;
    let mut t: u64 = m;
    while t > 0
        invariant
            n + bit_length(t as nat) == bit_length(m as nat),
            bit_length(m as nat) <= 64,
        decreases t,
    {
        t = t / 2;
        n = n + 1;
    }
    n
}

/// The bits of the binary64 number nearest to `v`: what a conversion of the
/// integer to floating point gives.
pub fn double_bits_of(v: i64) -> (r: u64)
    ensures
        r == double_bits(v as int),
{
    if v == 0 {
        return 0;
    }
    let m: u64 = if v >= 0 {
        v as u64
    } else if v == i64::MIN {
        SIGN_BIT
    } else {
        (-v) as u64
    };
    assert(m == magnitude(v as int));
    let n = bit_len(m);
    proof {
        lemma2_to64();
        lemma2_to64_rest();
        lemma_bit_length_bounds(m as nat);
        lemma_significand_bounds(m as nat);
    }
    let sig: u64 = if n <= 53 {
        let up: u64 = 53 - n;
        proof {
            lemma_u64_shl_is_mul(m, up);
        }
        m << up
    } else {
        let down: u64 = n - 53;
        proof {
            lemma_pow2_adds(1, (down - 1) as nat);
            lemma_pow2_strictly_increases(down as nat, 12);
            lemma_pow2_pos(down as nat);
            lemma_u64_shr_is_div(m, down);
            lemma_u64_shl_is_mul(1, down);
        }
        let d: u64 = 1u64 << down;
        let q: u64 = m >> down;
        let rest: u64 = m % d;
        let half: u64 = d / 2;
        if rest > half || (rest == half && q % 2 == 1) {
            q + 1
        } else {
            q
        }
    };
    assert(sig == significand(m as nat));
    let low: u64 = (n + 1022) * HIDDEN_BIT + (sig - HIDDEN_BIT);
    if v < 0 {
        low + SIGN_BIT
    } else {
        low
    }
}

} // verus!
