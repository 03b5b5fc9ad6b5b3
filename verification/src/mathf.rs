//! The `math.*` operations.
//!
//! A number keeps its kind: an operation on integers gives an integer, and one on a
//! float a float. Integer results that do not fit are an overflow, never wrapped.
//! Roots, and powers of floats, are left to the caller's arithmetic: what is decided
//! here is which of them is due.

use vstd::arithmetic::div_mod::*;
use vstd::arithmetic::mul::*;
use vstd::arithmetic::power::*;
use vstd::arithmetic::power2::*;
use vstd::prelude::*;

use crate::floatbits::{float_abs, float_lt, float_neg, float_of_int, is_nan};
use crate::gc::Heap;
use crate::ops::unbox_float;
use crate::value::JadeValue;
#[allow(unused_imports)]
use crate::floatbits::{
    bump, comparable, float_of_is_unique, is_float_of, magnitude, nearest, place, sign_bit,
    spec_is_nan,
};
#[allow(unused_imports)]
use crate::gc::{word_roundtrip, MAX_CELLS};
#[allow(unused_imports)]
use crate::obj::Cell;
#[allow(unused_imports)]
use crate::ops::float_at;
#[allow(unused_imports)]
use crate::value::{decode, wrap63, Val};

verus! {

/// A number: an integer, or a float by its bit pattern.
#[derive(Clone, Copy, Debug, PartialEq, Eq, Structural)]
pub enum Num {
    /// An integer.
    Int(i64),
    /// A float, by its bit pattern.
    Float(u64),
}

/// The one way an operation can fail.
#[derive(Clone, Copy, Debug, PartialEq, Eq, Structural)]
pub enum MathErr {
    /// The exact result does not fit in 64 bits.
    Overflow,
}

/// The outcome of a power: a number, or the float arithmetic that is due.
#[derive(Clone, Copy, Debug, PartialEq, Eq, Structural)]
pub enum Power {
    /// The number itself.
    Int(i64),
    /// A float to an integer power.
    Powi(u64, i32),
    /// A float to a float power.
    Powf(u64, u64),
}

/// The code of an operation that did not fail.
pub const JRT_MATH_OK: u32 = 0;

/// The code of an operation that overflowed.
pub const JRT_MATH_OVERFLOW: u32 = 1;

/// The pattern is the number as a float.
pub open spec fn is_float(n: Num, b: u64) -> bool {
    match n {
        Num::Int(i) => is_float_of(i as int, b),
        Num::Float(f) => b == f,
    }
}

impl Num {
    /// The number as a float.
    pub fn as_float(self) -> (b: u64)
        ensures
            is_float(self, b),
    {
        match self {
            Num::Int(i) => float_of_int(i),
            Num::Float(f) => f,
        }
    }
}

// ── Rounding ─────────────────────────────────────────────────────────────────

/// The fraction field of a pattern.
pub open spec fn fraction(b: u64) -> int {
    b as int % 0x10_0000_0000_0000
}

/// The exponent field of a pattern.
pub open spec fn exponent(b: u64) -> int {
    b as int / 0x10_0000_0000_0000 % 2048
}

/// The pattern has its sign bit.
pub open spec fn negative(b: u64) -> bool {
    b >= 0x8000_0000_0000_0000
}

/// The magnitude of a pattern that is a number, in units of two to the power -1074, the
/// least positive float.
pub open spec fn unit_count(b: u64) -> int {
    if exponent(b) == 0 {
        fraction(b)
    } else {
        (0x10_0000_0000_0000 + fraction(b)) * pow2((exponent(b) - 1) as nat)
    }
}

/// The value of a pattern that is a number, in units of two to the power -1074.
pub open spec fn units(b: u64) -> int {
    if negative(b) {
        -unit_count(b)
    } else {
        unit_count(b)
    }
}

/// The nearest 64-bit integer.
pub open spec fn clamp64(i: int) -> int {
    if i < i64::MIN {
        i64::MIN as int
    } else if i > i64::MAX {
        i64::MAX as int
    } else {
        i
    }
}

/// The greatest integer that is not above the float, as far as 64 bits hold it; zero
/// for a pattern that is not a number.
pub open spec fn floor_of(b: u64) -> int {
    if spec_is_nan(b) {
        0
    } else {
        clamp64(units(b) / (pow2(1074) as int))
    }
}

/// The least integer that is not below the float, as far as 64 bits hold it; zero for a
/// pattern that is not a number.
pub open spec fn ceil_of(b: u64) -> int {
    if spec_is_nan(b) {
        0
    } else {
        clamp64(-(-units(b) / (pow2(1074) as int)))
    }
}

/// A value that a wider integer holds, or its end.
spec fn wide(i: int) -> int {
    if i < -0x1_0000_0000_0000_0000 {
        -0x1_0000_0000_0000_0000
    } else if i > 0x1_0000_0000_0000_0000 {
        0x1_0000_0000_0000_0000
    } else {
        i
    }
}

/// Two to a power.
fn two_to(k: u64) -> (r: u64)
    requires
        k <= 62,
    ensures
        r == pow2(k as nat),
{
    let mut p: u64 = 1;
    let mut n: u64 = 0;
    proof {
        lemma2_to64();
    }
    while n < k
        invariant
            n <= k <= 62,
            p == pow2(n as nat),
            p <= 0x4000_0000_0000_0000,
        decreases k - n,
    {
        proof {
            lemma_pow2_unfold((n + 1) as nat);
            lemma2_to64_rest();
            if n + 1 < 62 {
                lemma_pow2_strictly_increases((n + 1) as nat, 62);
            }
        }
        p = p * 2;
        n = n + 1;
    }
    p
}

/// A common factor of two sides of a division rounds away.
proof fn factor_cancels(a: int, d: int, c: int)
    requires
        d > 0,
        c > 0,
    ensures
        (a * c) / (d * c) == a / d,
{
    let q = a / d;
    let r = a % d;
    lemma_fundamental_div_mod(a, d);
    assert(a == d * q + r);
    assert(a * c == q * (d * c) + r * c) by (nonlinear_arith)
        requires
            a == d * q + r,
    ;
    assert(0 <= r * c < d * c) by (nonlinear_arith)
        requires
            0 <= r < d,
            c > 0,
    ;
    lemma_fundamental_div_mod_converse(a * c, d * c, q, r * c);
}

/// The floor of a float above one unit of an integer, below it, and in between.
proof fn floor_by_exponent(m: int, e: int, s: int)
    requires
        0 < m,
        1 <= e <= 2047,
        s == 1 || s == -1,
    ensures
        e >= 1075 ==> (s * (m * pow2((e - 1) as nat))) / (pow2(1074) as int) == s * (m * pow2(
            (e - 1075) as nat,
        )),
        e < 1075 ==> (s * (m * pow2((e - 1) as nat))) / (pow2(1074) as int) == (s * m) / (pow2(
            (1075 - e) as nat,
        ) as int),
{
    let c = pow2((e - 1) as nat) as int;
    lemma_pow2_pos((e - 1) as nat);
    lemma_pow2_pos(1074);
    if e >= 1075 {
        lemma_pow2_adds((e - 1075) as nat, 1074);
        let p = pow2((e - 1075) as nat) as int;
        let t = pow2(1074) as int;
        assert(s * (m * c) == (s * (m * p)) * t) by (nonlinear_arith)
            requires
                c == p * t,
        ;
        lemma_fundamental_div_mod_converse(s * (m * c), t, s * (m * p), 0);
    } else {
        let d = pow2((1075 - e) as nat) as int;
        lemma_pow2_pos((1075 - e) as nat);
        lemma_pow2_adds((1075 - e) as nat, (e - 1) as nat);
        assert(s * (m * c) == (s * m) * c) by (nonlinear_arith);
        factor_cancels(s * m, d, c);
    }
}

/// A magnitude below the divisor: nothing, or one below nothing.
proof fn below_one(m: int, d: int)
    requires
        0 < m < d,
    ensures
        m / d == 0,
        (-m) / d == -1,
{
    lemma_fundamental_div_mod_converse(m, d, 0, m);
    lemma_fundamental_div_mod_converse(-m, d, -1, d - m);
}

/// The greatest integer that is not above a float that is a number.
fn floor_wide(b: u64) -> (r: i128)
    requires
        !spec_is_nan(b),
    ensures
        r == wide(units(b) / (pow2(1074) as int)),
{
    let frac: u64 = b % 0x10_0000_0000_0000;
    let e: u64 = b / 0x10_0000_0000_0000 % 2048;
    let neg: bool = b >= 0x8000_0000_0000_0000;
    proof {
        lemma_pow2_pos(1074);
        lemma2_to64_rest();
        lemma_pow2_strictly_increases(53, 1074);
    }
    if e == 0 {
        if frac == 0 {
            proof {
                lemma_div_basics_1(pow2(1074) as int);
            }
            return 0;
        }
        proof {
            below_one(frac as int, pow2(1074) as int);
        }
        return if neg {
            -1
        } else {
            0
        };
    }
    let m: u64 = 0x10_0000_0000_0000 + frac;
    proof {
        floor_by_exponent(m as int, e as int, 1);
        floor_by_exponent(m as int, e as int, -1);
        assert(1 * (m * pow2((e - 1) as nat)) == unit_count(b));
        assert(-1 * (m * pow2((e - 1) as nat)) == -unit_count(b));
    }
    if e >= 1075 {
        if e > 1086 {
            proof {
                let p = pow2((e - 1075) as nat) as int;
                lemma2_to64();
                if e > 1087 {
                    lemma_pow2_strictly_increases(12, (e - 1075) as nat);
                }
                assert(m * p >= 0x10_0000_0000_0000 * 4096) by (nonlinear_arith)
                    requires
                        m >= 0x10_0000_0000_0000,
                        p >= 4096,
                ;
            }
            return if neg {
                -0x1_0000_0000_0000_0000
            } else {
                0x1_0000_0000_0000_0000
            };
        }
        let p: u64 = two_to(e - 1075);
        proof {
            lemma2_to64();
            if e < 1086 {
                lemma_pow2_strictly_increases((e - 1075) as nat, 11);
            }
            assert(0 <= m * p <= 0x20_0000_0000_0000 * 2048) by (nonlinear_arith)
                requires
                    m <= 0x20_0000_0000_0000,
                    p <= 2048,
                    m >= 0,
                    p >= 0,
            ;
        }
        let v: i128 = m as i128 * p as i128;
        return if neg {
            -v
        } else {
            v
        };
    }
    let k: u64 = 1075 - e;
    if k >= 53 {
        proof {
            if k > 53 {
                lemma_pow2_strictly_increases(53, k as nat);
            }
            below_one(m as int, pow2(k as nat) as int);
        }
        return if neg {
            -1
        } else {
            0
        };
    }
    let p: u64 = two_to(k);
    proof {
        lemma_pow2_pos(k as nat);
    }
    let q: u64 = m / p;
    let rest: u64 = m % p;
    proof {
        let mi = m as int;
        let pi = p as int;
        let qi = q as int;
        let ri = rest as int;
        lemma_fundamental_div_mod(mi, pi);
        assert(mi == pi * qi + ri);
        assert(0 <= qi <= mi) by (nonlinear_arith)
            requires
                mi == pi * qi + ri,
                pi >= 1,
                ri >= 0,
                qi >= 0,
        ;
        if ri == 0 {
            assert(-mi == (-qi) * pi + 0) by (nonlinear_arith)
                requires
                    mi == pi * qi + ri,
                    ri == 0,
            ;
            lemma_fundamental_div_mod_converse(-mi, pi, -qi, 0);
        } else {
            assert(-mi == (-qi - 1) * pi + (pi - ri)) by (nonlinear_arith)
                requires
                    mi == pi * qi + ri,
            ;
            lemma_fundamental_div_mod_converse(-mi, pi, -qi - 1, pi - ri);
        }
        assert(1 * m == m);
        assert(-1 * m == -m);
    }
    if !neg {
        q as i128
    } else if rest == 0 {
        -(q as i128)
    } else {
        -(q as i128) - 1
    }
}

/// The nearest 64-bit integer.
fn clamp(i: i128) -> (r: i64)
    ensures
        r == clamp64(i as int),
{
    if i < i64::MIN as i128 {
        i64::MIN
    } else if i > i64::MAX as i128 {
        i64::MAX
    } else {
        i as i64
    }
}

/// What `math.floor` answers.
pub open spec fn floored(x: Num) -> Num {
    match x {
        Num::Int(i) => Num::Int(i),
        Num::Float(f) => Num::Int(floor_of(f) as i64),
    }
}

/// What `math.ceil` answers.
pub open spec fn ceiled(x: Num) -> Num {
    match x {
        Num::Int(i) => Num::Int(i),
        Num::Float(f) => Num::Int(ceil_of(f) as i64),
    }
}

/// `math.floor(x)`: a float rounds down to an integer; an integer stays.
pub fn floor(x: Num) -> (r: Num)
    ensures
        r == floored(x),
{
    match x {
        Num::Int(i) => Num::Int(i),
        Num::Float(f) => {
            if is_nan(f) {
                Num::Int(0)
            } else {
                Num::Int(clamp(floor_wide(f)))
            }
        },
    }
}

/// `math.ceil(x)`: a float rounds up to an integer; an integer stays.
pub fn ceil(x: Num) -> (r: Num)
    ensures
        r == ceiled(x),
{
    match x {
        Num::Int(i) => Num::Int(i),
        Num::Float(f) => {
            if is_nan(f) {
                return Num::Int(0);
            }
            let g: u64 = float_neg(f);
            proof {
                assert(fraction(g) == fraction(f));
                assert(exponent(g) == exponent(f));
                assert(negative(g) != negative(f));
                assert(units(g) == -units(f));
                assert(!spec_is_nan(g));
            }
            Num::Int(clamp(-floor_wide(g)))
        },
    }
}

// ── Magnitude and order ──────────────────────────────────────────────────────

/// What `math.abs` answers.
pub open spec fn abs_of(x: Num) -> Result<Num, MathErr> {
    match x {
        Num::Int(i) => if i == i64::MIN {
            Err(MathErr::Overflow)
        } else if i < 0 {
            Ok(Num::Int((-i) as i64))
        } else {
            Ok(Num::Int(i))
        },
        Num::Float(f) => Ok(Num::Float(f % 0x8000_0000_0000_0000)),
    }
}

/// `math.abs(x)`: the kind stays. The least integer has no magnitude that fits.
pub fn abs(x: Num) -> (r: Result<Num, MathErr>)
    ensures
        r == abs_of(x),
{
    match x {
        Num::Int(i) => {
            if i == i64::MIN {
                Err(MathErr::Overflow)
            } else if i < 0 {
                Ok(Num::Int(-i))
            } else {
                Ok(Num::Int(i))
            }
        },
        Num::Float(f) => Ok(Num::Float(float_abs(f))),
    }
}

/// The lesser of two floats; the other one where one is not a number.
pub open spec fn lesser(a: u64, b: u64) -> u64 {
    if spec_is_nan(a) {
        b
    } else if comparable(a, b) && place(b) < place(a) {
        b
    } else {
        a
    }
}

/// The greater of two floats; the other one where one is not a number.
pub open spec fn greater(a: u64, b: u64) -> u64 {
    if spec_is_nan(a) {
        b
    } else if comparable(a, b) && place(a) < place(b) {
        b
    } else {
        a
    }
}

/// The lesser of two numbers, an integer only when both are.
pub open spec fn is_min(a: Num, b: Num, r: Num) -> bool {
    match (a, b) {
        (Num::Int(x), Num::Int(y)) => r == Num::Int(
            if y < x {
                y
            } else {
                x
            },
        ),
        _ => exists|x: u64, y: u64| #[trigger]
            is_float(a, x) && #[trigger] is_float(b, y) && r == Num::Float(lesser(x, y)),
    }
}

/// `math.min(a, b)`: an integer for two integers, else a float.
pub fn min(a: Num, b: Num) -> (r: Num)
    ensures
        is_min(a, b, r),
{
    match (a, b) {
        (Num::Int(x), Num::Int(y)) => {
            if y < x {
                Num::Int(y)
            } else {
                Num::Int(x)
            }
        },
        _ => {
            let x: u64 = a.as_float();
            let y: u64 = b.as_float();
            assert(is_float(a, x) && is_float(b, y));
            if is_nan(x) || float_lt(y, x) {
                Num::Float(y)
            } else {
                Num::Float(x)
            }
        },
    }
}

/// The greater of two numbers, an integer only when both are.
pub open spec fn is_max(a: Num, b: Num, r: Num) -> bool {
    match (a, b) {
        (Num::Int(x), Num::Int(y)) => r == Num::Int(
            if x < y {
                y
            } else {
                x
            },
        ),
        _ => exists|x: u64, y: u64| #[trigger]
            is_float(a, x) && #[trigger] is_float(b, y) && r == Num::Float(greater(x, y)),
    }
}

/// `math.max(a, b)`: an integer for two integers, else a float.
pub fn max(a: Num, b: Num) -> (r: Num)
    ensures
        is_max(a, b, r),
{
    match (a, b) {
        (Num::Int(x), Num::Int(y)) => {
            if x < y {
                Num::Int(y)
            } else {
                Num::Int(x)
            }
        },
        _ => {
            let x: u64 = a.as_float();
            let y: u64 = b.as_float();
            assert(is_float(a, x) && is_float(b, y));
            if is_nan(x) || float_lt(x, y) {
                Num::Float(y)
            } else {
                Num::Float(x)
            }
        },
    }
}

// ── Powers ───────────────────────────────────────────────────────────────────

/// The integer fits in 64 bits.
pub open spec fn fits64(i: int) -> bool {
    i64::MIN <= i <= i64::MAX
}

/// What an integer to a power that is not negative comes to: the exact power where it
/// fits. An exponent that 32 bits do not hold is an overflow whatever the base.
pub open spec fn int_power(base: int, exp: int) -> Result<int, MathErr> {
    if exp > u32::MAX || !fits64(vstd::arithmetic::power::pow(base, exp as nat)) {
        Err(MathErr::Overflow)
    } else {
        Ok(vstd::arithmetic::power::pow(base, exp as nat))
    }
}

/// A power of a base of two or more in magnitude grows, at least twofold each time.
proof fn powers_grow(b: int, k: nat, n: nat)
    requires
        b >= 2 || b <= -2,
        k <= n,
    ensures
        k == n ==> vstd::arithmetic::power::pow(b, k) == vstd::arithmetic::power::pow(b, n),
        k < n && vstd::arithmetic::power::pow(b, k) >= 0 ==> vstd::arithmetic::power::pow(b, n) >= 2 * vstd::arithmetic::power::pow(b, k) || vstd::arithmetic::power::pow(b, n) <= -2 * vstd::arithmetic::power::pow(b, k),
        k < n && vstd::arithmetic::power::pow(b, k) < 0 ==> vstd::arithmetic::power::pow(b, n) >= -2 * vstd::arithmetic::power::pow(b, k) || vstd::arithmetic::power::pow(b, n) <= 2 * vstd::arithmetic::power::pow(b, k),
    decreases n,
{
    if k < n {
        powers_grow(b, k, (n - 1) as nat);
        lemma_pow_adds(b, 1, (n - 1) as nat);
        lemma_pow1(b);
        let p = vstd::arithmetic::power::pow(b, (n - 1) as nat);
        assert(vstd::arithmetic::power::pow(b, n) == b * p);
        assert((p >= 0 ==> b * p >= 2 * p || b * p <= -2 * p) && (p < 0 ==> b * p >= -2 * p || b
            * p <= 2 * p)) by (nonlinear_arith)
            requires
                b >= 2 || b <= -2,
        ;
    }
}

/// What a power of one, of minus one and of nothing is.
proof fn small_powers(n: nat)
    ensures
        n == 0 ==> vstd::arithmetic::power::pow(0, n) == 1,
        n > 0 ==> vstd::arithmetic::power::pow(0, n) == 0,
        vstd::arithmetic::power::pow(1, n) == 1,
        vstd::arithmetic::power::pow(-1, n) == if n % 2 == 0 {
            1
        } else {
            -1int
        },
    decreases n,
{
    lemma1_pow(n);
    if n == 0 {
        lemma_pow0(0);
        lemma_pow0(-1);
    } else {
        lemma0_pow(n);
        small_powers((n - 1) as nat);
        lemma_pow_adds(-1, 1, (n - 1) as nat);
        lemma_pow1(-1);
    }
}

/// An integer to a power, where it fits.
fn checked_power(base: i64, exp: u32) -> (r: Option<i64>)
    ensures
        match r {
            Some(v) => v == vstd::arithmetic::power::pow(base as int, exp as nat),
            None => !fits64(vstd::arithmetic::power::pow(base as int, exp as nat)),
        },
{
    proof {
        small_powers(exp as nat);
        lemma_pow0(base as int);
    }
    if base == 0 {
        return Some(
            if exp == 0 {
                1
            } else {
                0
            },
        );
    }
    if base == 1 {
        return Some(1);
    }
    if base == -1 {
        return Some(
            if exp % 2 == 0 {
                1
            } else {
                -1
            },
        );
    }
    let mut acc: i64 = 1;
    let mut k: u32 = 0;
    while k < exp
        invariant
            k <= exp,
            base >= 2 || base <= -2,
            acc == vstd::arithmetic::power::pow(base as int, k as nat),
        decreases exp - k,
    {
        let ghost bi = base as int;
        proof {
            lemma_pow_adds(bi, k as nat, 1);
            lemma_pow1(bi);
        }
        match acc.checked_mul(base) {
            Some(v) => {
                acc = v;
            },
            None => {
                proof {
                    powers_grow(bi, (k + 1) as nat, exp as nat);
                }
                return None;
            },
        }
        k = k + 1;
    }
    Some(acc)
}

/// The outcome of a power. Integers with an exponent that is not negative stay exact.
pub open spec fn is_power(a: Num, b: Num, r: Result<Power, MathErr>) -> bool {
    match (a, b) {
        (Num::Int(base), Num::Int(exp)) if exp >= 0 => match int_power(
            base as int,
            exp as int,
        ) {
            Ok(v) => r matches Ok(Power::Int(i)) && i == v,
            Err(e) => r == Err::<Power, MathErr>(e),
        },
        (_, Num::Int(exp)) => r matches Ok(Power::Powi(x, e)) && is_float(a, x) && e
            == exp as i32,
        _ => r matches Ok(Power::Powf(x, y)) && is_float(a, x) && is_float(b, y),
    }
}

/// What `math.pow` answers, or what float arithmetic is due for it: an integer to a
/// power that is not negative stays an integer. Any other power to an integer is a
/// float to an integer power, whose exponent keeps 32 bits.
pub fn pow(a: Num, b: Num) -> (r: Result<Power, MathErr>)
    ensures
        is_power(a, b, r),
{
    match b {
        Num::Int(exp) => {
            if let Num::Int(base) = a {
                if exp >= 0 {
                    if exp > u32::MAX as i64 {
                        return Err(MathErr::Overflow);
                    }
                    return match checked_power(base, exp as u32) {
                        Some(v) => Ok(Power::Int(v)),
                        None => Err(MathErr::Overflow),
                    };
                }
            }
            Ok(Power::Powi(a.as_float(), exp as i32))
        },
        Num::Float(_) => Ok(Power::Powf(a.as_float(), b.as_float())),
    }
}

// ── Words ────────────────────────────────────────────────────────────────────

/// The number a word is: an integer, or the float it points at.
pub open spec fn num_at(cells: Seq<Cell>, w: i64) -> Option<Num> {
    match decode(w as u64) {
        Val::Int(i) => Some(Num::Int(i as i64)),
        Val::Float(a) => match float_at(cells, a) {
            Some(b) => Some(Num::Float(b)),
            None => None,
        },
        _ => None,
    }
}

/// The number a word is.
pub fn to_num(h: &Heap, w: i64) -> (r: Option<Num>)
    ensures
        r == num_at(h.cells@, w),
{
    let v = JadeValue::from_word(w);
    if v.is_int() {
        return Some(Num::Int(v.as_int()));
    }
    if v.is_float() {
        return match unbox_float(h, v.as_ptr()) {
            Some(b) => Some(Num::Float(b)),
            None => None,
        };
    }
    None
}

/// A number comes back in a word.
pub open spec fn boxed(before: Seq<Cell>, after: Seq<Cell>, n: Num, w: i64) -> bool {
    match n {
        Num::Int(i) => decode(w as u64) == Val::Int(wrap63(i as int)) && after == before,
        Num::Float(b) => num_at(after, w) == Some(Num::Float(b)) && after == before.push(
            Cell::Float(b),
        ),
    }
}

/// The word of a number: an integer as it is, as far as a word holds it, and a float in
/// a new cell.
pub fn from_num(h: &mut Heap, n: Num) -> (w: i64)
    requires
        old(h).wf(),
        old(h).cells@.len() < MAX_CELLS,
    ensures
        final(h).wf(),
        final(h).rc_on == old(h).rc_on,
        boxed(old(h).cells@, final(h).cells@, n, w),
{
    match n {
        Num::Int(i) => {
            let v = JadeValue::from_int(i);
            proof {
                word_roundtrip(v.bits);
            }
            v.word()
        },
        Num::Float(b) => h.box_float(b),
    }
}

/// A number rounded down. Nothing for a word that is no number.
pub fn jrt_math_floor(h: &mut Heap, w: i64) -> (r: Option<i64>)
    requires
        old(h).wf(),
        old(h).cells@.len() < MAX_CELLS,
    ensures
        final(h).wf(),
        final(h).rc_on == old(h).rc_on,
        match num_at(old(h).cells@, w) {
            Some(n) => r matches Some(v) && boxed(old(h).cells@, final(h).cells@, floored(n), v),
            None => r is None && final(h).cells@ == old(h).cells@,
        },
{
    match to_num(h, w) {
        Some(n) => Some(from_num(h, floor(n))),
        None => None,
    }
}

/// A number rounded up. Nothing for a word that is no number.
pub fn jrt_math_ceil(h: &mut Heap, w: i64) -> (r: Option<i64>)
    requires
        old(h).wf(),
        old(h).cells@.len() < MAX_CELLS,
    ensures
        final(h).wf(),
        final(h).rc_on == old(h).rc_on,
        match num_at(old(h).cells@, w) {
            Some(n) => r matches Some(v) && boxed(old(h).cells@, final(h).cells@, ceiled(n), v),
            None => r is None && final(h).cells@ == old(h).cells@,
        },
{
    match to_num(h, w) {
        Some(n) => Some(from_num(h, ceil(n))),
        None => None,
    }
}

/// The magnitude of a number, with the code of the outcome. Nothing on overflow, and
/// nothing for a word that is no number.
pub fn jrt_math_abs(h: &mut Heap, w: i64) -> (r: (Option<i64>, u32))
    requires
        old(h).wf(),
        old(h).cells@.len() < MAX_CELLS,
    ensures
        final(h).wf(),
        final(h).rc_on == old(h).rc_on,
        match num_at(old(h).cells@, w) {
            Some(n) => match abs_of(n) {
                Ok(m) => r.1 == JRT_MATH_OK && (r.0 matches Some(v) && boxed(
                    old(h).cells@,
                    final(h).cells@,
                    m,
                    v,
                )),
                Err(_) => r == (None::<i64>, JRT_MATH_OVERFLOW) && final(h).cells@
                    == old(h).cells@,
            },
            None => r == (None::<i64>, JRT_MATH_OK) && final(h).cells@ == old(h).cells@,
        },
{
    match to_num(h, w) {
        Some(n) => match abs(n) {
            Ok(m) => (Some(from_num(h, m)), JRT_MATH_OK),
            Err(_) => (None, JRT_MATH_OVERFLOW),
        },
        None => (None, JRT_MATH_OK),
    }
}

/// The lesser of two numbers. Nothing unless both words are numbers.
pub fn jrt_math_min(h: &mut Heap, a: i64, b: i64) -> (r: Option<i64>)
    requires
        old(h).wf(),
        old(h).cells@.len() < MAX_CELLS,
    ensures
        final(h).wf(),
        final(h).rc_on == old(h).rc_on,
        match (num_at(old(h).cells@, a), num_at(old(h).cells@, b)) {
            (Some(x), Some(y)) => r matches Some(v) && (exists|n: Num| #[trigger]
                is_min(x, y, n) && boxed(old(h).cells@, final(h).cells@, n, v)),
            _ => r is None && final(h).cells@ == old(h).cells@,
        },
{
    match (to_num(h, a), to_num(h, b)) {
        (Some(x), Some(y)) => {
            let n = min(x, y);
            let v: i64 = from_num(h, n);
            assert(is_min(x, y, n));
            Some(v)
        },
        _ => None,
    }
}

/// The greater of two numbers. Nothing unless both words are numbers.
pub fn jrt_math_max(h: &mut Heap, a: i64, b: i64) -> (r: Option<i64>)
    requires
        old(h).wf(),
        old(h).cells@.len() < MAX_CELLS,
    ensures
        final(h).wf(),
        final(h).rc_on == old(h).rc_on,
        match (num_at(old(h).cells@, a), num_at(old(h).cells@, b)) {
            (Some(x), Some(y)) => r matches Some(v) && (exists|n: Num| #[trigger]
                is_max(x, y, n) && boxed(old(h).cells@, final(h).cells@, n, v)),
            _ => r is None && final(h).cells@ == old(h).cells@,
        },
{
    match (to_num(h, a), to_num(h, b)) {
        (Some(x), Some(y)) => {
            let n = max(x, y);
            let v: i64 = from_num(h, n);
            assert(is_max(x, y, n));
            Some(v)
        },
        _ => None,
    }
}

/// One number to the power of another, with the code of the outcome. Nothing on overflow,
/// and nothing unless both words are numbers.
pub fn jrt_math_pow(h: &Heap, a: i64, b: i64) -> (r: (Option<Power>, u32))
    ensures
        match (num_at(h.cells@, a), num_at(h.cells@, b)) {
            (Some(x), Some(y)) => match r.0 {
                Some(p) => r.1 == JRT_MATH_OK && is_power(x, y, Ok(p)),
                None => r.1 == JRT_MATH_OVERFLOW && is_power(x, y, Err(MathErr::Overflow)),
            },
            _ => r == (None::<Power>, JRT_MATH_OK),
        },
{
    match (to_num(h, a), to_num(h, b)) {
        (Some(x), Some(y)) => match pow(x, y) {
            Ok(p) => (Some(p), JRT_MATH_OK),
            Err(_) => (None, JRT_MATH_OVERFLOW),
        },
        _ => (None, JRT_MATH_OK),
    }
}

// ── Laws ─────────────────────────────────────────────────────────────────────

/// Rounding down and up meet at an integer, and lie one apart everywhere else: the
/// value is between them.
pub proof fn floor_and_ceil_enclose(b: u64)
    requires
        !spec_is_nan(b),
    ensures
        ({
            let p = pow2(1074) as int;
            let f = units(b) / p;
            let c = -(-units(b) / p);
            &&& f * p <= units(b) <= c * p
            &&& c - f == if units(b) % p == 0 {
                0int
            } else {
                1
            }
        }),
{
    let p = pow2(1074) as int;
    lemma_pow2_pos(1074);
    let u = units(b);
    lemma_fundamental_div_mod(u, p);
    lemma_fundamental_div_mod(-u, p);
    let q = u / p;
    let r = u % p;
    assert(u == p * q + r);
    assert(p * q == q * p) by (nonlinear_arith);
    if r == 0 {
        assert(-u == (-q) * p + 0) by (nonlinear_arith)
            requires
                u == p * q + r,
                r == 0,
        ;
        lemma_fundamental_div_mod_converse(-u, p, -q, 0);
    } else {
        assert(-u == (-q - 1) * p + (p - r)) by (nonlinear_arith)
            requires
                u == p * q + r,
        ;
        lemma_fundamental_div_mod_converse(-u, p, -q - 1, p - r);
        assert((q + 1) * p == q * p + p) by (nonlinear_arith);
    }
}

/// Rounding down gives the largest integer that is not above the number, and rounding up
/// the smallest that is not below it; at the ends of the integers both stop. What is not a
/// number rounds to zero, and an integer to itself.
pub proof fn rounding_is_next_to_the_number(b: u64, i: i64)
    ensures
        floored(Num::Int(i)) == Num::Int(i),
        ceiled(Num::Int(i)) == Num::Int(i),
        spec_is_nan(b) ==> floored(Num::Float(b)) == Num::Int(0) && ceiled(Num::Float(b))
            == Num::Int(0),
        !spec_is_nan(b) ==> (floored(Num::Float(b)) matches Num::Int(f) && {
            let p = pow2(1074) as int;
            &&& f > i64::MIN ==> f * p <= units(b)
            &&& f < i64::MAX ==> units(b) < (f + 1) * p
        }),
        !spec_is_nan(b) ==> (ceiled(Num::Float(b)) matches Num::Int(c) && {
            let p = pow2(1074) as int;
            &&& c < i64::MAX ==> units(b) <= c * p
            &&& c > i64::MIN ==> (c - 1) * p < units(b)
        }),
{
    if !spec_is_nan(b) {
        let p = pow2(1074) as int;
        lemma_pow2_pos(1074);
        let u = units(b);
        let q = u / p;
        lemma_fundamental_div_mod(u, p);
        lemma_mod_bound(u, p);
        assert(q * p <= u < (q + 1) * p) by (nonlinear_arith)
            requires
                u == p * q + u % p,
                0 <= u % p < p,
        ;
        let f = clamp64(q);
        assert(floored(Num::Float(b)) == Num::Int(f as i64));
        if f > i64::MIN {
            assert(f * p <= q * p) by (nonlinear_arith)
                requires
                    f <= q,
                    p > 0,
            ;
        }
        if f < i64::MAX {
            assert((q + 1) * p <= (f + 1) * p) by (nonlinear_arith)
                requires
                    q <= f,
                    p > 0,
            ;
        }
        let v = -u;
        let n = v / p;
        lemma_fundamental_div_mod(v, p);
        lemma_mod_bound(v, p);
        let k = -n;
        assert((k - 1) * p < u <= k * p) by (nonlinear_arith)
            requires
                v == p * n + v % p,
                v == -u,
                k == -n,
                0 <= v % p < p,
        ;
        let c = clamp64(k);
        assert(ceiled(Num::Float(b)) == Num::Int(c as i64));
        if c < i64::MAX {
            assert(k * p <= c * p) by (nonlinear_arith)
                requires
                    k <= c,
                    p > 0,
            ;
        }
        if c > i64::MIN {
            assert((c - 1) * p <= (k - 1) * p) by (nonlinear_arith)
                requires
                    c <= k,
                    p > 0,
            ;
        }
    }
}

/// What a pattern made of an exponent and digits counts, where the digits may run over
/// into the exponent.
proof fn pattern_counts(b: u64, e: nat, digits: int, s: int)
    requires
        1 <= e < 2000,
        0 <= digits <= 0x10_0000_0000_0000,
        s == 0 || s == 0x8000_0000_0000_0000,
        b == e * 0x10_0000_0000_0000 + digits + s,
    ensures
        unit_count(b) == (0x10_0000_0000_0000 + digits) * pow2((e - 1) as nat),
        negative(b) <==> s != 0,
{
    let h = 0x10_0000_0000_0000int;
    let sign: int = if s == 0 {
        0
    } else {
        2048
    };
    assert(s == sign * h);
    if digits < h {
        assert(b as int == (e + sign) * h + digits);
        lemma_fundamental_div_mod_converse(b as int, h, e + sign, digits);
        assert((e + sign) % 2048 == e);
    } else {
        assert(b as int == (e + 1 + sign) * h + 0);
        lemma_fundamental_div_mod_converse(b as int, h, e + 1 + sign, 0);
        assert((e + 1 + sign) % 2048 == e + 1);
        lemma_pow2_unfold(e);
        let p = pow2((e - 1) as nat) as int;
        assert(h * (2 * p) == (h + h) * p) by (nonlinear_arith);
    }
    assert(e * h + digits < 0x8000_0000_0000_0000);
}

/// An integer of fewer than fifty-four bits is exact as a float: its float counts as many
/// units as it has wholes, times the units in one.
pub proof fn small_integers_are_exact(i: int, b: u64)
    requires
        is_float_of(i, b),
        -0x20_0000_0000_0000 < i < 0x20_0000_0000_0000,
    ensures
        units(b) == i * pow2(1074),
{
    if i != 0 {
        let m = magnitude(i);
        let k = choose|k: nat|
            pow2(k) <= magnitude(i) < 2 * pow2(k) && b == #[trigger] nearest(magnitude(i), k)
                + sign_bit(i);
        lemma2_to64();
        if k > 52 {
            if k > 53 {
                lemma_pow2_strictly_increases(53, k);
            }
            lemma2_to64_rest();
            assert(false);
        }
        let up = pow2((52 - k) as nat) as int;
        let p = pow2(k) as int;
        lemma_pow2_adds(k, (52 - k) as nat);
        lemma2_to64_rest();
        lemma_pow2_pos((52 - k) as nat);
        assert(p * up == 0x10_0000_0000_0000);
        let digits = (m - p) * up;
        assert(0 <= digits < 0x10_0000_0000_0000) by (nonlinear_arith)
            requires
                digits == (m - p) * up,
                p <= m < 2 * p,
                p * up == 0x10_0000_0000_0000,
                up > 0,
        ;
        pattern_counts(b, (1023 + k) as nat, digits, sign_bit(i));
        assert(0x10_0000_0000_0000 + digits == m * up) by (nonlinear_arith)
            requires
                digits == (m - p) * up,
                p * up == 0x10_0000_0000_0000,
        ;
        lemma_pow2_adds((52 - k) as nat, (1022 + k) as nat);
        let t = pow2((1022 + k) as nat) as int;
        assert((m * up) * t == m * (up * t)) by (nonlinear_arith);
        let w = pow2(1074) as int;
        assert(i < 0 ==> -(m * w) == i * w) by (nonlinear_arith)
            requires
                i < 0 ==> m == -i,
        ;
    } else {
        assert(unit_count(0) == 0);
    }
}

/// `n` steps come as near to `i` as any number of them, and an even number where another
/// comes as near.
pub open spec fn near_steps(i: int, n: int, step: int) -> bool {
    &&& -step <= 2 * (n * step - i) <= step
    &&& 2 * (n * step - i) == step || 2 * (n * step - i) == -step ==> n % 2 == 0
}

/// A number has one width.
proof fn one_width(m: nat, j: nat, k: nat)
    requires
        pow2(j) <= m < 2 * pow2(j),
        pow2(k) <= m < 2 * pow2(k),
    ensures
        j == k,
{
    lemma_pow2_unfold(j + 1);
    lemma_pow2_unfold(k + 1);
    if j + 1 < k {
        lemma_pow2_strictly_increases(j + 1, k);
    }
    if k + 1 < j {
        lemma_pow2_strictly_increases(k + 1, j);
    }
}

/// Rounding a quotient to the nearer side, and to the even one in the middle, comes as near
/// as steps can.
proof fn rounded_quotients_are_near(m: int, step: int, q: int, r: int, c: int)
    requires
        step > 0,
        m == step * q + r,
        0 <= r < step,
        c == if 2 * r > step || (2 * r == step && q % 2 == 1) {
            q + 1
        } else {
            q
        },
    ensures
        near_steps(m, c, step),
        near_steps(-m, -c, step),
{
    assert((q + 1) * step == step * q + step) by (nonlinear_arith);
    assert(q * step == step * q) by (nonlinear_arith);
    assert((-c) * step == -(c * step)) by (nonlinear_arith);
}

/// What a long integer's float counts.
proof fn long_integer_counts(m: nat, b: u64, k: nat, s: int, c: nat)
    requires
        52 < k < 64,
        pow2(k) <= m < 2 * pow2(k),
        s == 0 || s == 0x8000_0000_0000_0000,
        b == nearest(m, k) + s,
        ({
            let step = pow2((k - 52) as nat);
            c == bump(
                m / step,
                2 * (m % step) > step || (2 * (m % step) == step && (m / step) % 2 == 1),
            )
        }),
    ensures
        unit_count(b) == (c * pow2((k - 52) as nat)) * pow2(1074),
        negative(b) <==> s != 0,
{
    let step = pow2((k - 52) as nat) as int;
    lemma_pow2_pos((k - 52) as nat);
    lemma_pow2_adds(52, (k - 52) as nat);
    lemma2_to64();
    lemma2_to64_rest();
    let q = m as int / step;
    let r = m as int % step;
    lemma_fundamental_div_mod(m as int, step);
    lemma_mod_bound(m as int, step);
    assert(0x10_0000_0000_0000 <= q < 0x20_0000_0000_0000) by (nonlinear_arith)
        requires
            m == step * q + r,
            0 <= r < step,
            0x10_0000_0000_0000 * step <= m < 2 * (0x10_0000_0000_0000 * step),
    ;
    pattern_counts(b, (1023 + k) as nat, c - 0x10_0000_0000_0000, s);
    lemma_pow2_adds((k - 52) as nat, 1074);
    let w = pow2(1074) as int;
    assert(c * (step * w) == (c * step) * w) by (nonlinear_arith);
}

/// A longer integer becomes the nearest float with a step of its size, and where two are
/// as near the one with an even count of steps.
pub proof fn large_integers_round_to_the_nearest(i: int, b: u64, k: nat)
    requires
        is_float_of(i, b),
        i64::MIN <= i <= i64::MAX,
        k > 52,
        pow2(k) <= magnitude(i) < 2 * pow2(k),
    ensures
        exists|n: int| #[trigger]
            near_steps(i, n, pow2((k - 52) as nat) as int) && units(b) == (n * pow2(
                (k - 52) as nat,
            )) * pow2(1074),
{
    let m = magnitude(i);
    let j = choose|j: nat|
        pow2(j) <= magnitude(i) < 2 * pow2(j) && b == #[trigger] nearest(magnitude(i), j)
            + sign_bit(i);
    one_width(m, j, k);
    if k > 63 {
        lemma2_to64();
        lemma2_to64_rest();
        lemma_pow2_strictly_increases(63, k);
    }
    let step = pow2((k - 52) as nat);
    lemma_pow2_pos((k - 52) as nat);
    lemma_fundamental_div_mod(m as int, step as int);
    lemma_mod_bound(m as int, step as int);
    let c = bump(m / step, 2 * (m % step) > step || (2 * (m % step) == step && (m / step) % 2 == 1));
    long_integer_counts(m, b, k, sign_bit(i), c);
    rounded_quotients_are_near(
        m as int,
        step as int,
        (m / step) as int,
        (m % step) as int,
        c as int,
    );
    if i < 0 {
        let n = -(c as int);
        let w = pow2(1074) as int;
        let t = step as int;
        assert((n * t) * w == -((c * t) * w)) by (nonlinear_arith)
            requires
                n == -(c as int),
        ;
        assert(near_steps(i, n, t));
    } else {
        assert(near_steps(i, c as int, step as int));
    }
}

/// Among patterns without a sign the larger one counts more units.
proof fn larger_patterns_count_more(x: u64, y: u64)
    requires
        x < y < 0x8000_0000_0000_0000,
    ensures
        unit_count(x) < unit_count(y),
        unit_count(x) >= 0,
{
    let h = 0x10_0000_0000_0000int;
    let (a, b) = (exponent(x), exponent(y));
    assert(x as int == a * h + fraction(x));
    assert(y as int == b * h + fraction(y));
    assert(a <= b) by (nonlinear_arith)
        requires
            a * h + fraction(x) < b * h + fraction(y),
            0 <= fraction(x),
            fraction(y) < h,
            h > 0,
    ;
    if a > 0 {
        lemma_pow2_pos((a - 1) as nat);
        let p = pow2((a - 1) as nat) as int;
        assert(0 <= (h + fraction(x)) * p) by (nonlinear_arith)
            requires
                p > 0,
                h + fraction(x) >= 0,
        ;
    }
    if b > 0 {
        let p = pow2((b - 1) as nat) as int;
        lemma_pow2_pos((b - 1) as nat);
        if a == b {
            assert((h + fraction(x)) * p < (h + fraction(y)) * p) by (nonlinear_arith)
                requires
                    p > 0,
                    fraction(x) < fraction(y),
            ;
        } else {
            assert(h * p <= (h + fraction(y)) * p) by (nonlinear_arith)
                requires
                    p > 0,
                    fraction(y) >= 0,
            ;
            if a == 0 {
                assert(h <= h * p) by (nonlinear_arith)
                    requires
                        p >= 1,
                        h > 0,
                ;
            } else {
                let q = pow2((a - 1) as nat) as int;
                lemma_pow2_unfold(a as nat);
                if a < b - 1 {
                    lemma_pow2_strictly_increases(a as nat, (b - 1) as nat);
                }
                assert((h + fraction(x)) * q < h * p) by (nonlinear_arith)
                    requires
                        2 * q <= p,
                        q > 0,
                        0 <= fraction(x) < h,
                ;
            }
        }
    }
}

/// The order of places is the order of the numbers: of two patterns the one with the
/// smaller place counts fewer units, and equal places count the same.
pub proof fn places_order_by_value(x: u64, y: u64)
    ensures
        place(x) < place(y) <==> units(x) < units(y),
        place(x) == place(y) <==> units(x) == units(y),
{
    let half = 0x8000_0000_0000_0000u64;
    let (a, b) = ((x % half) as u64, (y % half) as u64);
    unsigned_counts(x);
    unsigned_counts(y);
    if a < b {
        larger_patterns_count_more(a, b);
    }
    if b < a {
        larger_patterns_count_more(b, a);
    }
    if a > 0 {
        larger_patterns_count_more(0, a);
    }
    if b > 0 {
        larger_patterns_count_more(0, b);
    }
    assert(unit_count(0) == 0);
}

/// The sign has no part in the count.
proof fn unsigned_counts(x: u64)
    ensures
        unit_count(x) == unit_count((x % 0x8000_0000_0000_0000) as u64),
{
    let a = (x % 0x8000_0000_0000_0000) as u64;
    if x >= 0x8000_0000_0000_0000 {
        assert(x == a + 0x8000_0000_0000_0000);
        assert(x as int / 0x10_0000_0000_0000 == a as int / 0x10_0000_0000_0000 + 2048);
    }
}

/// The absolute value is not negative, and is the number or its negation; the one integer
/// without one is an overflow.
pub proof fn absolute_values_have_no_sign(i: i64, f: u64)
    ensures
        i != i64::MIN ==> (abs_of(Num::Int(i)) matches Ok(Num::Int(a)) && a >= 0 && (a == i || a
            == -i)),
        abs_of(Num::Int(i64::MIN)) == Err::<Num, MathErr>(MathErr::Overflow),
        abs_of(Num::Float(f)) matches Ok(Num::Float(a)) && place(a) >= 0 && (place(a) == place(f)
            || place(a) == -place(f)) && units(a) == unit_count(f),
{
    unsigned_counts(f);
}

/// The lesser of two numbers is one of them and not above the other, and the greater is
/// one of them and not below the other. Of a pair with one that is not a number, both are
/// the other one.
pub proof fn extremes_bound_the_pair(x: i64, y: i64, a: u64, b: u64, low: Num, high: Num)
    ensures
        is_min(Num::Int(x), Num::Int(y), low) <==> low == Num::Int(x) && x <= y || low == Num::Int(
            y,
        ) && y <= x,
        is_max(Num::Int(x), Num::Int(y), high) <==> high == Num::Int(x) && x >= y || high
            == Num::Int(y) && y >= x,
        is_min(Num::Float(a), Num::Float(b), low) ==> (low matches Num::Float(r) && (r == a || r
            == b) && (!spec_is_nan(a) && !spec_is_nan(b) ==> place(r) <= place(a) && place(r)
            <= place(b)) && (spec_is_nan(a) ==> r == b) && (!spec_is_nan(a) && spec_is_nan(b) ==> r
            == a)),
        is_max(Num::Float(a), Num::Float(b), high) ==> (high matches Num::Float(r) && (r == a || r
            == b) && (!spec_is_nan(a) && !spec_is_nan(b) ==> place(r) >= place(a) && place(r)
            >= place(b)) && (spec_is_nan(a) ==> r == b) && (!spec_is_nan(a) && spec_is_nan(b) ==> r
            == a)),
{
    if is_min(Num::Float(a), Num::Float(b), low) {
        let (p, q) = choose|p: u64, q: u64| #[trigger]
            is_float(Num::Float(a), p) && #[trigger] is_float(Num::Float(b), q) && low
                == Num::Float(lesser(p, q));
        assert(p == a && q == b);
    }
    if is_max(Num::Float(a), Num::Float(b), high) {
        let (p, q) = choose|p: u64, q: u64| #[trigger]
            is_float(Num::Float(a), p) && #[trigger] is_float(Num::Float(b), q) && high
                == Num::Float(greater(p, q));
        assert(p == a && q == b);
    }
}

/// An integer beside a float takes part in the choice as the float it rounds to.
pub proof fn mixed_extremes_are_floats(i: i64, b: u64, f: u64, r: Num)
    requires
        is_float_of(i as int, b),
    ensures
        is_min(Num::Int(i), Num::Float(f), r) <==> is_min(Num::Float(b), Num::Float(f), r),
        is_min(Num::Float(f), Num::Int(i), r) <==> is_min(Num::Float(f), Num::Float(b), r),
        is_max(Num::Int(i), Num::Float(f), r) <==> is_max(Num::Float(b), Num::Float(f), r),
        is_max(Num::Float(f), Num::Int(i), r) <==> is_max(Num::Float(f), Num::Float(b), r),
{
    assert forall|c: u64| #[trigger] is_float(Num::Int(i), c) implies c == b by {
        float_of_is_unique(i as int, b, c);
    }
    assert(is_float(Num::Int(i), b));
    assert(is_float(Num::Float(b), b));
    assert(is_float(Num::Float(f), f));
}

/// A power of integers starts at one and grows by the base with each step of the exponent,
/// until it no longer fits, which is an overflow.
pub proof fn powers_multiply(base: i64, exp: i64, v: i64, u: i64)
    requires
        0 <= exp < u32::MAX,
        is_power(Num::Int(base), Num::Int(exp), Ok(Power::Int(v))),
    ensures
        exp == 0 ==> v == 1,
        is_power(Num::Int(base), Num::Int((exp + 1) as i64), Ok(Power::Int(u))) <==> u == base * v,
        is_power(Num::Int(base), Num::Int((exp + 1) as i64), Err(MathErr::Overflow)) <==> !(
        i64::MIN <= base * v <= i64::MAX),
{
    reveal(vstd::arithmetic::power::pow);
}

/// Other powers are left to float arithmetic, base first: with an integer exponent in the
/// form that takes an integer, with a float exponent in the one that takes two floats.
pub proof fn float_powers_keep_their_operands(x: u64, y: u64, base: i64, exp: i64, b: u64)
    requires
        is_float_of(base as int, b),
    ensures
        is_power(Num::Float(x), Num::Int(exp), Ok(Power::Powi(x, exp as i32))),
        is_power(Num::Float(x), Num::Float(y), Ok(Power::Powf(x, y))),
        is_power(Num::Int(base), Num::Float(y), Ok(Power::Powf(b, y))),
        exp < 0 ==> is_power(Num::Int(base), Num::Int(exp), Ok(Power::Powi(b, exp as i32))),
{
}

/// A boxed number reads back as it was put: a float always, an integer where it fits a
/// word. What the heap held before stays.
pub proof fn boxed_numbers_read_back(before: Seq<Cell>, after: Seq<Cell>, n: Num, w: i64)
    requires
        boxed(before, after, n, w),
        n matches Num::Int(i) ==> -0x4000_0000_0000_0000 <= i <= 0x3fff_ffff_ffff_ffff,
    ensures
        num_at(after, w) == Some(n),
        n is Int ==> after == before,
        n is Float ==> after.len() == before.len() + 1,
        forall|i: int| 0 <= i < before.len() ==> #[trigger] after[i] == before[i],
{
}

} // verus!
