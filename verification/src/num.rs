//! Integer exponentiation.

use vstd::arithmetic::div_mod::*;
use vstd::arithmetic::mul::*;
use vstd::arithmetic::power::*;
use vstd::prelude::*;

verus! {

/// The `i64` congruent to `v` modulo two to the 64th.
pub open spec fn wrap64(v: int) -> int {
    let h = v % 0x1_0000_0000_0000_0000;
    if h < 0x8000_0000_0000_0000 {
        h
    } else {
        h - 0x1_0000_0000_0000_0000
    }
}

/// Two numbers leave the same remainder modulo two to the 64th.
spec fn same64(a: int, b: int) -> bool {
    a % 0x1_0000_0000_0000_0000 == b % 0x1_0000_0000_0000_0000
}

/// A product of congruent factors is congruent.
proof fn same64_mul(a: int, b: int, c: int, d: int)
    requires
        same64(a, b),
        same64(c, d),
    ensures
        same64(a * c, b * d),
{
    let m: int = 0x1_0000_0000_0000_0000;
    lemma_mul_mod_noop(a, c, m);
    lemma_mul_mod_noop(b, d, m);
}

/// Wrapping multiplication multiplies modulo two to the 64th.
proof fn wrapping_mul_same64(x: i64, y: i64)
    ensures
        same64(x.wrapping_mul(y) as int, x * y),
{
}

/// `base` to the power `exp` by repeated squaring, wrapping at 64 bits. A negative
/// exponent yields zero.
pub fn ipow(base: i64, exp: i64) -> (r: i64)
    ensures
        r == (if exp < 0 {
            0
        } else {
            wrap64(pow(base as int, exp as nat))
        }),
{
    if exp < 0 {
        return 0;
    }
    let mut result: i64 = 1;
    let mut b: i64 = base;
    let mut e: u64 = exp as u64;
    proof {
        lemma_mul_basics(pow(base as int, exp as nat));
    }
    while e != 0
        invariant
            same64(result * pow(b as int, e as nat), pow(base as int, exp as nat)),
            exp >= 0,
        decreases e,
    {
        let ghost b0 = b as int;
        let ghost e0 = e;
        let ghost r0 = result as int;
        if e % 2 != 0 {
            result = result.wrapping_mul(b);
        }
        e = e / 2;
        if e != 0 {
            b = b.wrapping_mul(b);
        }
        proof {
            square_step(r0, b0, e0, result, b, e);
        }
    }
    proof {
        lemma_pow0(b as int);
        lemma_mul_basics(result as int);
    }
    result
}

/// One squaring step keeps `result * b^e` modulo two to the 64th.
proof fn square_step(r0: int, b0: int, e0: u64, r1: i64, b1: i64, e1: u64)
    requires
        e0 != 0,
        e1 == e0 / 2,
        i64::MIN <= r0 <= i64::MAX,
        i64::MIN <= b0 <= i64::MAX,
        r1 == (if e0 % 2 != 0 {
            (r0 as i64).wrapping_mul(b0 as i64)
        } else {
            r0 as i64
        }),
        b1 == (if e1 != 0 {
            (b0 as i64).wrapping_mul(b0 as i64)
        } else {
            b0 as i64
        }),
    ensures
        same64(r1 * pow(b1 as int, e1 as nat), r0 * pow(b0, e0 as nat)),
{
    let sq = b0 * b0;
    let half = e1 as nat;
    // b0^e0 == b0^(e0 % 2) * (b0 * b0)^(e0 / 2)
    lemma_pow1(b0);
    lemma_pow_multiplies(b0, 2, half);
    assert(pow(b0, 2) == sq) by {
        lemma_square_is_pow2(b0);
    }
    assert(pow(sq, half) == pow(b0, 2 * half));
    wrapping_mul_same64(b0 as i64, b0 as i64);
    if e1 != 0 {
        same64_pow(b1 as int, sq, half);
    } else {
        lemma_pow0(b1 as int);
        lemma_pow0(sq);
    }
    assert(same64(pow(b1 as int, half), pow(sq, half)));
    if e0 % 2 != 0 {
        lemma_pow_adds(b0, 1, 2 * half);
        assert(e0 == 1 + 2 * half);
        assert(pow(b0, e0 as nat) == b0 * pow(b0, 2 * half));
        wrapping_mul_same64(r0 as i64, b0 as i64);
        same64_mul(r1 as int, r0 * b0, pow(b1 as int, half), pow(sq, half));
        lemma_mul_is_associative(r0, b0, pow(sq, half));
    } else {
        assert(e0 == 2 * half);
        same64_mul(r1 as int, r0, pow(b1 as int, half), pow(sq, half));
    }
}

/// `b^2` is `b * b`.
proof fn lemma_square_is_pow2(b: int)
    ensures
        pow(b, 2) == b * b,
{
    reveal_with_fuel(pow, 3);
    lemma_mul_basics(b);
}

/// Powers of congruent bases are congruent.
proof fn same64_pow(a: int, b: int, e: nat)
    requires
        same64(a, b),
    ensures
        same64(pow(a, e), pow(b, e)),
    decreases e,
{
    reveal(pow);
    if e > 0 {
        same64_pow(a, b, (e - 1) as nat);
        same64_mul(a, b, pow(a, (e - 1) as nat), pow(b, (e - 1) as nat));
    }
}

/// Wrapping keeps a number up to a multiple of the word's span, and lands in the word.
pub proof fn wrapping_stays_in_the_word(v: int)
    ensures
        i64::MIN <= wrap64(v) <= i64::MAX,
        (v - wrap64(v)) % 0x1_0000_0000_0000_0000 == 0,
        i64::MIN <= v <= i64::MAX ==> wrap64(v) == v,
{
}

} // verus!
