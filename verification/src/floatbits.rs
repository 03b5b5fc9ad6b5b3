//! Binary64 numbers by their bit patterns: comparison, and conversion from integers.
//!
//! A pattern is a sign bit, eleven exponent bits and fifty-two fraction bits. Read as
//! an integer without its sign, it orders magnitudes as the numbers themselves are
//! ordered.

use vstd::arithmetic::power2::*;
use vstd::prelude::*;

verus! {

/// The pattern is not a number.
pub open spec fn spec_is_nan(b: u64) -> bool {
    b % 0x8000_0000_0000_0000 > 0x7ff0_0000_0000_0000
}

/// The place of a number in the order of all numbers; both zeros are at zero.
pub open spec fn place(b: u64) -> int {
    if b < 0x8000_0000_0000_0000 {
        b as int
    } else {
        -(b - 0x8000_0000_0000_0000)
    }
}

/// Both patterns are numbers.
pub open spec fn comparable(x: u64, y: u64) -> bool {
    !spec_is_nan(x) && !spec_is_nan(y)
}

/// Whether a pattern is not a number.
pub fn is_nan(b: u64) -> (r: bool)
    ensures
        r == spec_is_nan(b),
{
    b % 0x8000_0000_0000_0000 > 0x7ff0_0000_0000_0000
}

/// The pattern is of a finite number: its exponent is not all ones.
pub open spec fn spec_is_finite(b: u64) -> bool {
    (b / 0x10_0000_0000_0000) % 2048 != 2047
}

/// Whether the pattern is of a finite number.
pub fn is_finite(b: u64) -> (r: bool)
    ensures
        r == spec_is_finite(b),
{
    (b / 0x10_0000_0000_0000) % 2048 != 2047
}

/// The place of a number in the order of all numbers.
fn place_of(b: u64) -> (r: i128)
    ensures
        r == place(b),
{
    if b < 0x8000_0000_0000_0000 {
        b as i128
    } else {
        -((b - 0x8000_0000_0000_0000) as i128)
    }
}

/// `x == y`: never for a pattern that is not a number.
pub fn float_eq(x: u64, y: u64) -> (r: bool)
    ensures
        r == (comparable(x, y) && place(x) == place(y)),
{
    !is_nan(x) && !is_nan(y) && place_of(x) == place_of(y)
}

/// `x < y`: never for a pattern that is not a number.
pub fn float_lt(x: u64, y: u64) -> (r: bool)
    ensures
        r == (comparable(x, y) && place(x) < place(y)),
{
    !is_nan(x) && !is_nan(y) && place_of(x) < place_of(y)
}

/// The pattern with its sign flipped.
pub open spec fn flip(b: u64) -> u64 {
    if b < 0x8000_0000_0000_0000 {
        (b + 0x8000_0000_0000_0000) as u64
    } else {
        (b - 0x8000_0000_0000_0000) as u64
    }
}

/// `-x`: the sign flips and nothing else changes.
pub fn float_neg(b: u64) -> (r: u64)
    ensures
        r == flip(b),
{
    if b < 0x8000_0000_0000_0000 {
        b + 0x8000_0000_0000_0000
    } else {
        b - 0x8000_0000_0000_0000
    }
}

/// `|x|`: the sign is cleared and nothing else changes.
pub fn float_abs(b: u64) -> (r: u64)
    ensures
        r == b % 0x8000_0000_0000_0000,
{
    b % 0x8000_0000_0000_0000
}

/// `q` rounded up by one when `up`.
pub open spec fn bump(q: nat, up: bool) -> nat {
    if up {
        q + 1
    } else {
        q
    }
}

/// The pattern of the number nearest to the positive integer `m` whose highest bit is
/// bit `k`. A tie goes to the even fraction. A fraction that rounds up to the next
/// power of two carries into the exponent.
pub open spec fn nearest(m: nat, k: nat) -> nat {
    let exponent = (1023 + k) as nat * 0x10_0000_0000_0000;
    if k <= 52 {
        (exponent + (m - pow2(k)) * pow2((52 - k) as nat)) as nat
    } else {
        let unit = pow2((k - 52) as nat);
        let q = m / unit;
        let r = m % unit;
        let up = 2 * r > unit || (2 * r == unit && q % 2 == 1);
        (exponent + bump(q, up) - 0x10_0000_0000_0000) as nat
    }
}

/// The magnitude of an integer.
pub open spec fn magnitude(i: int) -> nat {
    if i < 0 {
        (-i) as nat
    } else {
        i as nat
    }
}

/// The sign bit of an integer, at its place.
pub open spec fn sign_bit(i: int) -> int {
    if i < 0 {
        0x8000_0000_0000_0000
    } else {
        0
    }
}

/// `b` is the pattern of the integer `i`, rounded to the nearest number.
pub open spec fn is_float_of(i: int, b: u64) -> bool {
    if i == 0 {
        b == 0
    } else {
        exists|k: nat|
            pow2(k) <= magnitude(i) < 2 * pow2(k) && b == #[trigger] nearest(magnitude(i), k)
                + sign_bit(i)
    }
}

/// The pattern of an integer, rounded to the nearest number, a tie to even.
pub fn float_of_int(i: i64) -> (b: u64)
    ensures
        is_float_of(i as int, b),
{
    if i == 0 {
        return 0;
    }
    let m: u64 = if i < 0 {
        (-(i as i128)) as u64
    } else {
        i as u64
    };
    // The highest bit of `m`, and its value.
    let mut k: u64 = 0;
    let mut p: u64 = 1;
    proof {
        lemma2_to64();
        lemma2_to64_rest();
    }
    while m / 2 >= p
        invariant
            p == pow2(k as nat),
            p <= m,
            m <= 0x8000_0000_0000_0000,
            k <= 63,
            p >= 1,
        decreases m - p,
    {
        proof {
            lemma_pow2_unfold((k + 1) as nat);
            lemma2_to64();
            lemma2_to64_rest();
        }
        p = p * 2;
        k = k + 1;
    }
    let exponent: u64 = (1023 + k) * 0x10_0000_0000_0000;
    let mag: u64;
    if k <= 52 {
        let mut unit: u64 = 1;
        let mut n: u64 = 0;
        proof {
            if k < 52 {
                lemma_pow2_strictly_increases(k as nat, 52);
            }
        }
        while n < 52 - k
            invariant
                n <= 52 - k,
                k <= 52,
                unit == pow2(n as nat),
                unit * p <= 0x10_0000_0000_0000,
                unit * p == pow2((n + k) as nat),
                p == pow2(k as nat),
                p >= 1,
            decreases 52 - k - n,
        {
            proof {
                lemma_pow2_unfold((n + 1) as nat);
                lemma_pow2_unfold((n + 1 + k) as nat);
                lemma2_to64_rest();
                if n + 1 + k < 52 {
                    lemma_pow2_strictly_increases((n + 1 + k) as nat, 52);
                }
                assert(2 * unit * p == 2 * (unit * p)) by (nonlinear_arith);
                assert(unit <= unit * p) by (nonlinear_arith)
                    requires
                        p >= 1,
                ;
            }
            unit = unit * 2;
            n = n + 1;
        }
        proof {
            lemma2_to64_rest();
            assert((m - p) * unit <= p * unit) by (nonlinear_arith)
                requires
                    m - p <= p,
                    unit >= 0,
            ;
            assert(p * unit == unit * p) by (nonlinear_arith);
        }
        mag = exponent + (m - p) * unit;
        assert(mag == nearest(m as nat, k as nat));
    } else {
        let mut unit: u64 = 1;
        let mut n: u64 = 0;
        while n < k - 52
            invariant
                n <= k - 52,
                52 < k <= 63,
                unit == pow2(n as nat),
                1 <= unit <= 0x800,
                n <= 11,
            decreases k - 52 - n,
        {
            proof {
                lemma_pow2_unfold((n + 1) as nat);
                lemma2_to64();
                if n + 1 < 11 {
                    lemma_pow2_strictly_increases((n + 1) as nat, 11);
                }
            }
            unit = unit * 2;
            n = n + 1;
        }
        let q: u64 = m / unit;
        let r: u64 = m % unit;
        let up: bool = 2 * r > unit || (2 * r == unit && q % 2 == 1);
        proof {
            quotient_in_range(m as nat, k as nat, unit as nat);
        }
        let rounded: u64 = if up {
            q + 1
        } else {
            q
        };
        mag = exponent - 0x10_0000_0000_0000 + rounded;
        assert(mag == nearest(m as nat, k as nat));
    }
    let b: u64 = if i < 0 {
        mag + 0x8000_0000_0000_0000
    } else {
        mag
    };
    proof {
        assert(m == magnitude(i as int));
        assert(pow2(k as nat) <= m < 2 * pow2(k as nat));
        assert(b == nearest(magnitude(i as int), k as nat) + sign_bit(i as int));
    }
    b
}

/// With the unit of its last fraction bit, a number of high bit `k` has a quotient of
/// exactly fifty-three bits.
proof fn quotient_in_range(m: nat, k: nat, unit: nat)
    requires
        52 < k <= 63,
        unit == pow2((k - 52) as nat),
        pow2(k) <= m < 2 * pow2(k),
    ensures
        0x10_0000_0000_0000 <= m / unit < 0x20_0000_0000_0000,
{
    lemma2_to64_rest();
    lemma_pow2_adds((k - 52) as nat, 52);
    lemma_pow2_pos((k - 52) as nat);
    assert(pow2(k) == unit * 0x10_0000_0000_0000);
    assert(0x10_0000_0000_0000 <= m / unit < 0x20_0000_0000_0000) by (nonlinear_arith)
        requires
            unit > 0,
            unit * 0x10_0000_0000_0000 <= m < 2 * (unit * 0x10_0000_0000_0000),
    ;
}

/// An integer has one bit pattern.
pub proof fn float_of_is_unique(i: int, b: u64, c: u64)
    requires
        is_float_of(i, b),
        is_float_of(i, c),
    ensures
        b == c,
{
    if i != 0 {
        let m = magnitude(i);
        let k = choose|k: nat|
            pow2(k) <= m < 2 * pow2(k) && b == #[trigger] nearest(m, k) + sign_bit(i);
        let l = choose|l: nat|
            pow2(l) <= m < 2 * pow2(l) && c == #[trigger] nearest(m, l) + sign_bit(i);
        if k < l {
            lemma_pow2_unfold((k + 1) as nat);
            if k + 1 < l {
                lemma_pow2_strictly_increases((k + 1) as nat, l);
            }
        } else if l < k {
            lemma_pow2_unfold((l + 1) as nat);
            if l + 1 < k {
                lemma_pow2_strictly_increases((l + 1) as nat, k);
            }
        }
    }
}

/// Negating twice gives the number back, and mirrors its place in the order.
pub proof fn negation_mirrors(b: u64)
    ensures
        flip(flip(b)) == b,
        place(flip(b)) == -place(b),
{
}

/// Comparison of numbers is a total order on places: exactly one of less, equal and
/// greater holds of two numbers, and none of a pattern that is not a number.
pub proof fn order_is_total(x: u64, y: u64)
    ensures
        comparable(x, y) ==> place(x) < place(y) || place(x) == place(y) || place(y) < place(x),
        spec_is_nan(x) ==> !comparable(x, y),
{
}

/// A pattern is finite exactly where its digits lie below those of infinity, and it is a
/// number exactly where they do not lie above them.
pub proof fn infinity_bounds_the_numbers(b: u64)
    ensures
        spec_is_finite(b) <==> b % 0x8000_0000_0000_0000 < 0x7ff0_0000_0000_0000,
        spec_is_nan(b) <==> b % 0x8000_0000_0000_0000 > 0x7ff0_0000_0000_0000,
        spec_is_finite(b) ==> !spec_is_nan(b),
{
    let d = b % 0x8000_0000_0000_0000;
    assert(b / 0x10_0000_0000_0000 == 2048 * (b / 0x8000_0000_0000_0000) + d
        / 0x10_0000_0000_0000);
}

} // verus!
