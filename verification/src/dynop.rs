//! The decision core for dynamic binary operations and numeric negation.
//!
//! Callers decode their values into a [`Kind`] and map the [`Outcome`] back. The
//! rules are strict:
//!
//!  * `+ - *` on two integers are overflow-checked;
//!  * a bool is not a number;
//!  * `==` and `!=` need matching kinds, except that nil compares with anything;
//!  * ordering allows integers and floats to mix, bools with bools and strings with
//!    strings;
//!  * `/` and `%` by zero are errors.
//!
//! A float travels as its IEEE 754 bit pattern. The core compares floats itself; of
//! float arithmetic it decides *that* it is to be done, and on which operands, and the
//! caller does it.

use vstd::prelude::*;

use crate::floatbits::{float_eq, float_lt, float_neg, float_of_int};
#[allow(unused_imports)]
use crate::floatbits::{comparable, flip, is_float_of, place};

verus! {

/// A value decoded to what dynamic dispatch needs.
#[derive(Clone, Copy, PartialEq, Eq, Debug, Structural)]
pub enum Kind {
    /// An integer.
    Int(i64),
    /// A float, by its bit pattern.
    Float(u64),
    /// A bool.
    Bool(bool),
    /// A string; its text stays with the caller.
    Str,
    /// Nil.
    Nil,
    /// Anything else.
    Other,
}

/// The dynamic binary operators.
#[derive(Clone, Copy, PartialEq, Eq, Debug, Structural)]
pub enum Op {
    /// `+`
    Add,
    /// `-`
    Sub,
    /// `*`
    Mul,
    /// `/`
    Div,
    /// `%`
    Mod,
    /// `==`
    Eq,
    /// `!=`
    Ne,
    /// `<`
    Lt,
    /// `>`
    Gt,
    /// `<=`
    Le,
    /// `>=`
    Ge,
}

/// Why a dynamic operation failed.
#[derive(Clone, Copy, PartialEq, Eq, Debug, Structural)]
pub enum DynErr {
    /// `+ - *` on two integers left the range.
    Overflow,
    /// Division by zero.
    DivZero,
    /// Remainder by zero.
    RemZero,
    /// The kinds are not valid for the operator.
    Type,
}

/// A number handed on for float arithmetic. An integer is promoted by the caller.
#[derive(Clone, Copy, PartialEq, Eq, Debug, Structural)]
pub enum Operand {
    /// An integer still to be promoted.
    Int(i64),
    /// A float, by its bit pattern.
    Float(u64),
}

/// What the caller must do to finish an operation.
#[derive(Clone, Copy, PartialEq, Eq, Debug, Structural)]
pub enum Outcome {
    /// The result is this integer.
    Int(i64),
    /// The result is the float `a op b`, for `op` one of `+ - * / %`.
    FloatArith(Op, Operand, Operand),
    /// The result is this float, by its bit pattern.
    Float(u64),
    /// The result is this bool.
    Bool(bool),
    /// The two strings are to be concatenated.
    Concat,
    /// The two strings are to be compared and the operator applied.
    StrRel,
    /// The operation failed.
    Fail(DynErr),
}

// ── What the operators mean ──────────────────────────────────────────────────

/// A kind as a number, if it is one.
pub open spec fn spec_num(k: Kind) -> Option<Operand> {
    match k {
        Kind::Int(i) => Some(Operand::Int(i)),
        Kind::Float(f) => Some(Operand::Float(f)),
        _ => None,
    }
}

/// The operand equals zero; a float is zero in either sign.
pub open spec fn spec_is_zero(n: Operand) -> bool {
    match n {
        Operand::Int(i) => i == 0,
        Operand::Float(f) => f == 0 || f == 0x8000_0000_0000_0000,
    }
}

/// The quotient of `x` by `y`, rounded toward zero.
pub open spec fn quot(x: int, y: int) -> int {
    if (x >= 0) == (y >= 0) {
        abs(x) / abs(y)
    } else {
        -(abs(x) / abs(y))
    }
}

/// The remainder of `x` by `y`, with the sign of `x`.
pub open spec fn rem_toward_zero(x: int, y: int) -> int {
    if x >= 0 {
        abs(x) % abs(y)
    } else {
        -(abs(x) % abs(y))
    }
}

/// The absolute value.
pub open spec fn abs(x: int) -> int {
    if x < 0 {
        -x
    } else {
        x
    }
}

/// `v` as an integer result, or an overflow.
pub open spec fn checked(v: int) -> Outcome {
    if i64::MIN <= v <= i64::MAX {
        Outcome::Int(v as i64)
    } else {
        Outcome::Fail(DynErr::Overflow)
    }
}

/// The operator is an ordering.
pub open spec fn is_ordering(op: Op) -> bool {
    op is Lt || op is Gt || op is Le || op is Ge
}

/// `x op y` for an ordering `op`.
pub open spec fn holds(op: Op, x: int, y: int) -> bool {
    match op {
        Op::Lt => x < y,
        Op::Gt => x > y,
        Op::Le => x <= y,
        Op::Ge => x >= y,
        Op::Eq => x == y,
        Op::Ne => x != y,
        _ => false,
    }
}

/// `x op y` for floats, by their bit patterns. Nothing but `!=` holds of a pattern that
/// is not a number.
pub open spec fn float_holds(op: Op, x: u64, y: u64) -> bool {
    if comparable(x, y) {
        holds(op, place(x), place(y))
    } else {
        op is Ne
    }
}

/// `b` is the bit pattern of the operand; an integer is rounded to the nearest number.
pub open spec fn promotes(n: Operand, b: u64) -> bool {
    match n {
        Operand::Int(i) => is_float_of(i as int, b),
        Operand::Float(f) => b == f,
    }
}

/// `x op y` for two numbers at least one of which is a float.
pub open spec fn float_rel(op: Op, x: Operand, y: Operand) -> bool {
    exists|b: u64, c: u64| promotes(x, b) && promotes(y, c) && float_holds(op, b, c)
}

/// A bool as a number, `false` below `true`.
pub open spec fn rank(b: bool) -> int {
    if b {
        1
    } else {
        0
    }
}

/// `a op b` for `+ - *` when the operands are not both integers.
pub open spec fn spec_float_arith(op: Op, a: Kind, b: Kind) -> Outcome {
    match (spec_num(a), spec_num(b)) {
        (Some(x), Some(y)) => Outcome::FloatArith(op, x, y),
        _ => Outcome::Fail(DynErr::Type),
    }
}

/// `a op b` for `/ %` when the operands are not both integers.
pub open spec fn spec_float_quot(op: Op, a: Kind, b: Kind, zero: DynErr) -> Outcome {
    match (spec_num(a), spec_num(b)) {
        (Some(x), Some(y)) => if spec_is_zero(y) {
            Outcome::Fail(zero)
        } else {
            Outcome::FloatArith(op, x, y)
        },
        _ => Outcome::Fail(DynErr::Type),
    }
}

/// The meaning of every dynamic binary operation.
pub open spec fn spec_binop(op: Op, a: Kind, b: Kind) -> Outcome {
    match op {
        Op::Add => match (a, b) {
            (Kind::Int(x), Kind::Int(y)) => checked(x + y),
            (Kind::Str, Kind::Str) => Outcome::Concat,
            _ => spec_float_arith(op, a, b),
        },
        Op::Sub => match (a, b) {
            (Kind::Int(x), Kind::Int(y)) => checked(x - y),
            _ => spec_float_arith(op, a, b),
        },
        Op::Mul => match (a, b) {
            (Kind::Int(x), Kind::Int(y)) => checked(x * y),
            _ => spec_float_arith(op, a, b),
        },
        Op::Div => match (a, b) {
            (Kind::Int(x), Kind::Int(y)) => if y == 0 {
                Outcome::Fail(DynErr::DivZero)
            } else if x == i64::MIN && y == -1 {
                Outcome::Int(i64::MIN)
            } else {
                Outcome::Int(quot(x as int, y as int) as i64)
            },
            _ => spec_float_quot(op, a, b, DynErr::DivZero),
        },
        Op::Mod => match (a, b) {
            (Kind::Int(x), Kind::Int(y)) => if y == 0 {
                Outcome::Fail(DynErr::RemZero)
            } else {
                Outcome::Int(rem_toward_zero(x as int, y as int) as i64)
            },
            _ => spec_float_quot(op, a, b, DynErr::RemZero),
        },
        Op::Eq | Op::Ne => match (a, b) {
            (Kind::Int(x), Kind::Int(y)) => Outcome::Bool(holds(op, x as int, y as int)),
            (Kind::Float(x), Kind::Float(y)) => Outcome::Bool(float_holds(op, x, y)),
            (Kind::Bool(x), Kind::Bool(y)) => Outcome::Bool(holds(op, rank(x), rank(y))),
            (Kind::Str, Kind::Str) => Outcome::StrRel,
            (Kind::Nil, Kind::Nil) => Outcome::Bool(op is Eq),
            (Kind::Nil, _) => Outcome::Bool(op is Ne),
            (_, Kind::Nil) => Outcome::Bool(op is Ne),
            _ => Outcome::Fail(DynErr::Type),
        },
        Op::Lt | Op::Gt | Op::Le | Op::Ge => match (a, b) {
            (Kind::Int(x), Kind::Int(y)) => Outcome::Bool(holds(op, x as int, y as int)),
            (Kind::Bool(x), Kind::Bool(y)) => Outcome::Bool(holds(op, rank(x), rank(y))),
            (Kind::Str, Kind::Str) => Outcome::StrRel,
            _ => match (spec_num(a), spec_num(b)) {
                (Some(x), Some(y)) => Outcome::Bool(float_rel(op, x, y)),
                _ => Outcome::Fail(DynErr::Type),
            },
        },
    }
}

/// The meaning of negation. Negating the smallest integer wraps to itself.
pub open spec fn spec_neg(a: Kind) -> Outcome {
    match a {
        Kind::Int(i) => if i == i64::MIN {
            Outcome::Int(i64::MIN)
        } else {
            Outcome::Int((-i) as i64)
        },
        Kind::Float(f) => Outcome::Float(flip(f)),
        _ => Outcome::Fail(DynErr::Type),
    }
}

// ── The operators ────────────────────────────────────────────────────────────

/// A kind as a number; a bool is not one.
pub fn num(k: Kind) -> (r: Option<Operand>)
    ensures
        r == spec_num(k),
{
    match k {
        Kind::Int(i) => Some(Operand::Int(i)),
        Kind::Float(f) => Some(Operand::Float(f)),
        _ => None,
    }
}

/// Whether an operand is zero.
fn is_zero(n: Operand) -> (r: bool)
    ensures
        r == spec_is_zero(n),
{
    match n {
        Operand::Int(i) => i == 0,
        Operand::Float(f) => f == 0 || f == 0x8000_0000_0000_0000,
    }
}

/// The float fallback of `+ - *`.
fn float_arith(op: Op, a: Kind, b: Kind) -> (r: Outcome)
    ensures
        r == spec_float_arith(op, a, b),
{
    match (num(a), num(b)) {
        (Some(x), Some(y)) => Outcome::FloatArith(op, x, y),
        _ => Outcome::Fail(DynErr::Type),
    }
}

/// The float fallback of `/ %`.
fn float_quot(op: Op, a: Kind, b: Kind, zero: DynErr) -> (r: Outcome)
    ensures
        r == spec_float_quot(op, a, b, zero),
{
    match (num(a), num(b)) {
        (Some(x), Some(y)) => if is_zero(y) {
            Outcome::Fail(zero)
        } else {
            Outcome::FloatArith(op, x, y)
        },
        _ => Outcome::Fail(DynErr::Type),
    }
}

/// An integer ordering.
pub fn ord_i(op: Op, x: i64, y: i64) -> (r: bool)
    requires
        is_ordering(op),
    ensures
        r == holds(op, x as int, y as int),
{
    match op {
        Op::Lt => x < y,
        Op::Gt => x > y,
        Op::Le => x <= y,
        _ => x >= y,
    }
}

/// The bit pattern of an operand.
fn promote(n: Operand) -> (b: u64)
    ensures
        promotes(n, b),
{
    match n {
        Operand::Int(i) => float_of_int(i),
        Operand::Float(f) => f,
    }
}

/// An ordering of two numbers as floats.
pub fn ord_f(op: Op, x: Operand, y: Operand) -> (r: bool)
    requires
        is_ordering(op),
    ensures
        r == float_rel(op, x, y),
{
    let b: u64 = promote(x);
    let c: u64 = promote(y);
    let r: bool = match op {
        Op::Lt => float_lt(b, c),
        Op::Gt => float_lt(c, b),
        Op::Le => float_lt(b, c) || float_eq(b, c),
        _ => float_lt(c, b) || float_eq(b, c),
    };
    proof {
        assert forall|d: u64, e: u64| promotes(x, d) && promotes(y, e) implies d == b && e
            == c by {
            promotion_is_unique(x, d, b);
            promotion_is_unique(y, e, c);
        }
        if r {
            assert(promotes(x, b) && promotes(y, c) && float_holds(op, b, c));
        }
    }
    r
}

/// An operand has one bit pattern.
proof fn promotion_is_unique(n: Operand, b: u64, c: u64)
    requires
        promotes(n, b),
        promotes(n, c),
    ensures
        b == c,
{
    if n is Int {
        crate::floatbits::float_of_is_unique(n->Int_0 as int, b, c);
    }
}

/// A bool ordering, `false` before `true`.
pub fn ord_bool(op: Op, a: bool, b: bool) -> (r: bool)
    requires
        is_ordering(op),
    ensures
        r == holds(op, rank(a), rank(b)),
{
    match op {
        Op::Lt => !a && b,
        Op::Gt => a && !b,
        Op::Le => a == b || (!a && b),
        _ => a == b || (a && !b),
    }
}

/// `x / y` on integers, wrapping at the one quotient that does not fit.
fn int_quot(x: i64, y: i64) -> (r: i64)
    requires
        y != 0,
    ensures
        r == (if x == i64::MIN && y == -1 {
            i64::MIN
        } else {
            quot(x as int, y as int) as i64
        }),
{
    proof {
        let (n, d) = (abs(x as int), abs(y as int));
        if d >= 2 {
            vstd::arithmetic::div_mod::lemma_div_is_ordered_by_denominator(n, 2, d);
            vstd::arithmetic::div_mod::lemma_div_pos_is_pos(n, d);
        } else {
            assert(d == 1);
            assert(n / d == n);
        }
    }
    match x.checked_div(y) {
        Some(v) => v,
        None => i64::MIN,
    }
}

/// `x % y` on integers.
fn int_rem(x: i64, y: i64) -> (r: i64)
    requires
        y != 0,
    ensures
        r == rem_toward_zero(x as int, y as int),
{
    proof {
        let (n, d) = (abs(x as int), abs(y as int));
        vstd::arithmetic::div_mod::lemma_mod_bound(n, d);
        if n == 0 {
            vstd::arithmetic::div_mod::lemma_small_mod(0, d as nat);
        }
        if d == 1 {
            assert(n % d == 0);
        }
    }
    match x.checked_rem(y) {
        Some(v) => v,
        None => 0,
    }
}

/// Decide a dynamic binary operation.
pub fn binop(op: Op, a: Kind, b: Kind) -> (r: Outcome)
    ensures
        r == spec_binop(op, a, b),
{
    match op {
        Op::Add => match (a, b) {
            (Kind::Int(x), Kind::Int(y)) => match x.checked_add(y) {
                Some(v) => Outcome::Int(v),
                None => Outcome::Fail(DynErr::Overflow),
            },
            (Kind::Str, Kind::Str) => Outcome::Concat,
            _ => float_arith(op, a, b),
        },
        Op::Sub => match (a, b) {
            (Kind::Int(x), Kind::Int(y)) => match x.checked_sub(y) {
                Some(v) => Outcome::Int(v),
                None => Outcome::Fail(DynErr::Overflow),
            },
            _ => float_arith(op, a, b),
        },
        Op::Mul => match (a, b) {
            (Kind::Int(x), Kind::Int(y)) => match x.checked_mul(y) {
                Some(v) => Outcome::Int(v),
                None => Outcome::Fail(DynErr::Overflow),
            },
            _ => float_arith(op, a, b),
        },
        Op::Div => match (a, b) {
            (Kind::Int(x), Kind::Int(y)) => if y == 0 {
                Outcome::Fail(DynErr::DivZero)
            } else {
                Outcome::Int(int_quot(x, y))
            },
            _ => float_quot(op, a, b, DynErr::DivZero),
        },
        Op::Mod => match (a, b) {
            (Kind::Int(x), Kind::Int(y)) => if y == 0 {
                Outcome::Fail(DynErr::RemZero)
            } else {
                Outcome::Int(int_rem(x, y))
            },
            _ => float_quot(op, a, b, DynErr::RemZero),
        },
        Op::Eq | Op::Ne => {
            let ne: bool = op == Op::Ne;
            match (a, b) {
                (Kind::Int(x), Kind::Int(y)) => Outcome::Bool((x == y) != ne),
                (Kind::Float(x), Kind::Float(y)) => Outcome::Bool(float_eq(x, y) != ne),
                (Kind::Bool(x), Kind::Bool(y)) => Outcome::Bool((x == y) != ne),
                (Kind::Str, Kind::Str) => Outcome::StrRel,
                (Kind::Nil, Kind::Nil) => Outcome::Bool(!ne),
                (Kind::Nil, _) => Outcome::Bool(ne),
                (_, Kind::Nil) => Outcome::Bool(ne),
                _ => Outcome::Fail(DynErr::Type),
            }
        },
        Op::Lt | Op::Gt | Op::Le | Op::Ge => match (a, b) {
            (Kind::Int(x), Kind::Int(y)) => Outcome::Bool(ord_i(op, x, y)),
            (Kind::Bool(x), Kind::Bool(y)) => Outcome::Bool(ord_bool(op, x, y)),
            (Kind::Str, Kind::Str) => Outcome::StrRel,
            _ => match (num(a), num(b)) {
                (Some(x), Some(y)) => Outcome::Bool(ord_f(op, x, y)),
                _ => Outcome::Fail(DynErr::Type),
            },
        },
    }
}

/// Decide a negation.
pub fn neg(a: Kind) -> (r: Outcome)
    ensures
        r == spec_neg(a),
{
    match a {
        Kind::Int(i) => Outcome::Int(0i64.wrapping_sub(i)),
        Kind::Float(f) => Outcome::Float(float_neg(f)),
        _ => Outcome::Fail(DynErr::Type),
    }
}

// ── Laws ─────────────────────────────────────────────────────────────────────

/// `!=` is the negation of `==` wherever `==` answers a bool, and fails exactly
/// where `==` fails.
pub proof fn ne_negates_eq(a: Kind, b: Kind)
    ensures
        spec_binop(Op::Eq, a, b) is Bool ==> spec_binop(Op::Ne, a, b) == Outcome::Bool(
            !(spec_binop(Op::Eq, a, b)->Bool_0),
        ),
        spec_binop(Op::Eq, a, b) is Fail <==> spec_binop(Op::Ne, a, b) is Fail,
{
}

/// A bool is never a number: arithmetic with one is a type error.
pub proof fn bool_is_not_numeric(op: Op, x: bool, b: Kind)
    requires
        op is Add || op is Sub || op is Mul || op is Div || op is Mod,
    ensures
        spec_binop(op, Kind::Bool(x), b) == Outcome::Fail(DynErr::Type),
        spec_binop(op, b, Kind::Bool(x)) == Outcome::Fail(DynErr::Type),
        spec_neg(Kind::Bool(x)) == Outcome::Fail(DynErr::Type),
{
}

/// Nil compares with anything, and equals only itself.
pub proof fn nil_equals_only_nil(b: Kind)
    ensures
        spec_binop(Op::Eq, Kind::Nil, b) == Outcome::Bool(b is Nil),
        spec_binop(Op::Eq, b, Kind::Nil) == Outcome::Bool(b is Nil),
{
}

/// Equality of two values of different kinds, neither of them nil, is a type error.
pub proof fn equality_needs_matching_kinds(a: Kind, b: Kind)
    requires
        !(a is Nil),
        !(b is Nil),
        !(a is Int && b is Int),
        !(a is Float && b is Float),
        !(a is Bool && b is Bool),
        !(a is Str && b is Str),
    ensures
        spec_binop(Op::Eq, a, b) == Outcome::Fail(DynErr::Type),
{
}

/// Integer division and remainder fit together: `x == y * (x / y) + x % y`, and the
/// remainder is smaller than the divisor.
pub proof fn quotient_and_remainder(x: int, y: int)
    requires
        y != 0,
    ensures
        x == y * quot(x, y) + rem_toward_zero(x, y),
        abs(rem_toward_zero(x, y)) < abs(y),
{
    let q = abs(x) / abs(y);
    vstd::arithmetic::div_mod::lemma_fundamental_div_mod(abs(x), abs(y));
    vstd::arithmetic::div_mod::lemma_mod_bound(abs(x), abs(y));
    assert(abs(x) == abs(y) * q + abs(x) % abs(y));
    assert(y * (-q) == -(y * q)) by (nonlinear_arith);
    assert((-y) * q == -(y * q)) by (nonlinear_arith);
}

/// Float arithmetic is asked for on the operands as they stand: the left one left, the
/// right one right. Division by zero, of either sign, is refused.
pub proof fn float_operands_keep_their_places(op: Op, f: u64, g: u64, i: i64)
    requires
        op is Add || op is Sub || op is Mul || op is Div || op is Mod,
        op is Div || op is Mod ==> g != 0 && g != 0x8000_0000_0000_0000 && i != 0,
    ensures
        spec_binop(op, Kind::Float(f), Kind::Float(g)) == Outcome::FloatArith(
            op,
            Operand::Float(f),
            Operand::Float(g),
        ),
        spec_binop(op, Kind::Float(f), Kind::Int(i)) == Outcome::FloatArith(
            op,
            Operand::Float(f),
            Operand::Int(i),
        ),
        spec_binop(op, Kind::Int(i), Kind::Float(g)) == Outcome::FloatArith(
            op,
            Operand::Int(i),
            Operand::Float(g),
        ),
{
}

/// Dividing by a zero fails, whatever number is divided: each operator with an error of
/// its own.
pub proof fn zero_divides_nothing(f: u64, i: i64, z: u64)
    requires
        z == 0 || z == 0x8000_0000_0000_0000,
    ensures
        spec_binop(Op::Div, Kind::Int(i), Kind::Int(0)) == Outcome::Fail(DynErr::DivZero),
        spec_binop(Op::Div, Kind::Float(f), Kind::Int(0)) == Outcome::Fail(DynErr::DivZero),
        spec_binop(Op::Div, Kind::Int(i), Kind::Float(z)) == Outcome::Fail(DynErr::DivZero),
        spec_binop(Op::Div, Kind::Float(f), Kind::Float(z)) == Outcome::Fail(DynErr::DivZero),
        spec_binop(Op::Mod, Kind::Int(i), Kind::Int(0)) == Outcome::Fail(DynErr::RemZero),
        spec_binop(Op::Mod, Kind::Float(f), Kind::Int(0)) == Outcome::Fail(DynErr::RemZero),
        spec_binop(Op::Mod, Kind::Int(i), Kind::Float(z)) == Outcome::Fail(DynErr::RemZero),
        spec_binop(Op::Mod, Kind::Float(f), Kind::Float(z)) == Outcome::Fail(DynErr::RemZero),
{
}

/// Integer arithmetic is exact or an overflow: the sum, the difference and the product
/// where they fit, and nothing in their place where they do not.
pub proof fn integer_arithmetic_is_exact(x: i64, y: i64, v: i64)
    ensures
        spec_binop(Op::Add, Kind::Int(x), Kind::Int(y)) == Outcome::Int(v) <==> v == x + y,
        spec_binop(Op::Sub, Kind::Int(x), Kind::Int(y)) == Outcome::Int(v) <==> v == x - y,
        spec_binop(Op::Mul, Kind::Int(x), Kind::Int(y)) == Outcome::Int(v) <==> v == x * y,
        spec_binop(Op::Add, Kind::Int(x), Kind::Int(y)) == Outcome::Fail(DynErr::Overflow) <==> !(
        i64::MIN <= x + y <= i64::MAX),
        spec_binop(Op::Sub, Kind::Int(x), Kind::Int(y)) == Outcome::Fail(DynErr::Overflow) <==> !(
        i64::MIN <= x - y <= i64::MAX),
        spec_binop(Op::Mul, Kind::Int(x), Kind::Int(y)) == Outcome::Fail(DynErr::Overflow) <==> !(
        i64::MIN <= x * y <= i64::MAX),
{
}

/// Integer division rounds toward zero: quotient times divisor plus remainder is what was
/// divided, the remainder is smaller than the divisor, and it has the sign of what was
/// divided. The one quotient that does not fit wraps.
pub proof fn integer_division_rounds_toward_zero(x: i64, y: i64)
    requires
        y != 0,
    ensures
        spec_binop(Op::Mod, Kind::Int(x), Kind::Int(y)) matches Outcome::Int(r) && {
            &&& -(if y < 0 { -(y as int) } else { y as int }) < r < (if y < 0 {
                -(y as int)
            } else {
                y as int
            })
            &&& x >= 0 ==> r >= 0
            &&& x <= 0 ==> r <= 0
            &&& spec_binop(Op::Div, Kind::Int(x), Kind::Int(y)) matches Outcome::Int(q) && if x
                == i64::MIN && y == -1 {
                q == i64::MIN
            } else {
                x == y * q + r
            }
        },
{
    let n = abs(x as int);
    let d = abs(y as int);
    quotient_and_remainder(x as int, y as int);
    assert(d >= 1);
    vstd::arithmetic::div_mod::lemma_mod_bound(n, d);
    vstd::arithmetic::div_mod::lemma_div_pos_is_pos(n, d);
    assert(0 <= n % d < d);
    assert(n / d <= n) by (nonlinear_arith)
        requires
            n >= 0,
            d >= 1,
    ;
    if d >= 2 {
        assert(2 * (n / d) <= n) by (nonlinear_arith)
            requires
                n >= 0,
                d >= 2,
        ;
    } else {
        vstd::arithmetic::div_mod::lemma_div_basics(n);
        assert(d == 1);
    }
    if n == 0 {
        vstd::arithmetic::div_mod::lemma_small_mod(0, d as nat);
    }
    let r = rem_toward_zero(x as int, y as int);
    assert(-d < r < d);
    assert(i64::MIN <= r <= i64::MAX);
    if !(x == i64::MIN && y == -1) {
        assert(i64::MIN <= quot(x as int, y as int) <= i64::MAX);
    }
}

/// Integers compare by value.
pub proof fn integers_compare_by_value(x: i64, y: i64)
    ensures
        spec_binop(Op::Eq, Kind::Int(x), Kind::Int(y)) == Outcome::Bool(x == y),
        spec_binop(Op::Ne, Kind::Int(x), Kind::Int(y)) == Outcome::Bool(x != y),
        spec_binop(Op::Lt, Kind::Int(x), Kind::Int(y)) == Outcome::Bool(x < y),
        spec_binop(Op::Gt, Kind::Int(x), Kind::Int(y)) == Outcome::Bool(x > y),
        spec_binop(Op::Le, Kind::Int(x), Kind::Int(y)) == Outcome::Bool(x <= y),
        spec_binop(Op::Ge, Kind::Int(x), Kind::Int(y)) == Outcome::Bool(x >= y),
{
}

/// Bools compare with bools, `false` below `true`.
pub proof fn bools_compare_false_first(x: bool, y: bool)
    ensures
        spec_binop(Op::Eq, Kind::Bool(x), Kind::Bool(y)) == Outcome::Bool(x == y),
        spec_binop(Op::Ne, Kind::Bool(x), Kind::Bool(y)) == Outcome::Bool(x != y),
        spec_binop(Op::Lt, Kind::Bool(x), Kind::Bool(y)) == Outcome::Bool(!x && y),
        spec_binop(Op::Gt, Kind::Bool(x), Kind::Bool(y)) == Outcome::Bool(x && !y),
        spec_binop(Op::Le, Kind::Bool(x), Kind::Bool(y)) == Outcome::Bool(!x || y),
        spec_binop(Op::Ge, Kind::Bool(x), Kind::Bool(y)) == Outcome::Bool(x || !y),
{
}

/// Strings join with `+` and compare with strings; every other pairing with one is a type
/// error, save for comparing it with nil.
pub proof fn strings_go_with_strings(op: Op, k: Kind)
    ensures
        spec_binop(Op::Add, Kind::Str, Kind::Str) == Outcome::Concat,
        op is Sub || op is Mul || op is Div || op is Mod ==> spec_binop(op, Kind::Str, k)
            == Outcome::Fail(DynErr::Type) && spec_binop(op, k, Kind::Str) == Outcome::Fail(
            DynErr::Type,
        ),
        op is Eq || op is Ne || op is Lt || op is Gt || op is Le || op is Ge ==> spec_binop(
            op,
            Kind::Str,
            Kind::Str,
        ) == Outcome::StrRel,
        !(k is Str) && !(k is Nil && (op is Eq || op is Ne)) ==> spec_binop(op, Kind::Str, k)
            == Outcome::Fail(DynErr::Type) && spec_binop(op, k, Kind::Str) == Outcome::Fail(
            DynErr::Type,
        ),
        spec_neg(Kind::Str) == Outcome::Fail(DynErr::Type),
{
}

/// Nil and opaque values have no arithmetic and no order.
pub proof fn only_values_with_an_order_compare(op: Op, a: Kind, k: Kind)
    requires
        a is Nil || a is Other,
        !(op is Eq) && !(op is Ne),
    ensures
        spec_binop(op, a, k) == Outcome::Fail(DynErr::Type),
        spec_binop(op, k, a) == Outcome::Fail(DynErr::Type),
        spec_neg(a) == Outcome::Fail(DynErr::Type),
{
}

/// Floats that are numbers compare as their patterns do: without a sign upward, with a
/// sign downward, and those with a sign below those without one. Both zeros are equal.
pub proof fn floats_compare_as_numbers(x: u64, y: u64)
    requires
        x % 0x8000_0000_0000_0000 <= 0x7ff0_0000_0000_0000,
        y % 0x8000_0000_0000_0000 <= 0x7ff0_0000_0000_0000,
    ensures
        ({
            let (a, b) = (Kind::Float(x), Kind::Float(y));
            let less = if x < 0x8000_0000_0000_0000 {
                y < 0x8000_0000_0000_0000 && x < y
            } else if y < 0x8000_0000_0000_0000 {
                x != 0x8000_0000_0000_0000 || y != 0
            } else {
                y < x
            };
            let same = x == y || x % 0x8000_0000_0000_0000 == 0 && y % 0x8000_0000_0000_0000 == 0;
            &&& spec_binop(Op::Lt, a, b) == Outcome::Bool(less)
            &&& spec_binop(Op::Gt, b, a) == Outcome::Bool(less)
            &&& spec_binop(Op::Le, a, b) == Outcome::Bool(less || same)
            &&& spec_binop(Op::Ge, b, a) == Outcome::Bool(less || same)
            &&& spec_binop(Op::Eq, a, b) == Outcome::Bool(same)
            &&& spec_binop(Op::Ne, a, b) == Outcome::Bool(!same)
        }),
{
    float_rel_is(Op::Lt, x, y);
    float_rel_is(Op::Gt, y, x);
    float_rel_is(Op::Le, x, y);
    float_rel_is(Op::Ge, y, x);
}

/// Comparing two floats is comparing their patterns.
proof fn float_rel_is(op: Op, x: u64, y: u64)
    ensures
        float_rel(op, Operand::Float(x), Operand::Float(y)) == float_holds(op, x, y),
{
    if float_holds(op, x, y) {
        assert(promotes(Operand::Float(x), x) && promotes(Operand::Float(y), y) && float_holds(
            op,
            x,
            y,
        ));
    }
}

/// A pattern that is not a number equals nothing, and is neither below nor above anything.
pub proof fn nan_compares_with_nothing(x: u64, y: u64)
    requires
        x % 0x8000_0000_0000_0000 > 0x7ff0_0000_0000_0000,
    ensures
        spec_binop(Op::Eq, Kind::Float(x), Kind::Float(y)) == Outcome::Bool(false),
        spec_binop(Op::Ne, Kind::Float(x), Kind::Float(y)) == Outcome::Bool(true),
        spec_binop(Op::Lt, Kind::Float(x), Kind::Float(y)) == Outcome::Bool(false),
        spec_binop(Op::Gt, Kind::Float(x), Kind::Float(y)) == Outcome::Bool(false),
        spec_binop(Op::Le, Kind::Float(x), Kind::Float(y)) == Outcome::Bool(false),
        spec_binop(Op::Ge, Kind::Float(x), Kind::Float(y)) == Outcome::Bool(false),
        spec_binop(Op::Lt, Kind::Float(y), Kind::Float(x)) == Outcome::Bool(false),
        spec_binop(Op::Gt, Kind::Float(y), Kind::Float(x)) == Outcome::Bool(false),
        spec_binop(Op::Le, Kind::Float(y), Kind::Float(x)) == Outcome::Bool(false),
        spec_binop(Op::Ge, Kind::Float(y), Kind::Float(x)) == Outcome::Bool(false),
{
    float_rel_is(Op::Lt, x, y);
    float_rel_is(Op::Gt, x, y);
    float_rel_is(Op::Le, x, y);
    float_rel_is(Op::Ge, x, y);
    float_rel_is(Op::Lt, y, x);
    float_rel_is(Op::Gt, y, x);
    float_rel_is(Op::Le, y, x);
    float_rel_is(Op::Ge, y, x);
}

/// An integer is ordered against a float as the float it rounds to.
pub proof fn mixed_numbers_compare_as_floats(op: Op, i: i64, b: u64, f: u64)
    requires
        op is Lt || op is Gt || op is Le || op is Ge,
        is_float_of(i as int, b),
    ensures
        spec_binop(op, Kind::Int(i), Kind::Float(f)) == spec_binop(
            op,
            Kind::Float(b),
            Kind::Float(f),
        ),
        spec_binop(op, Kind::Float(f), Kind::Int(i)) == spec_binop(
            op,
            Kind::Float(f),
            Kind::Float(b),
        ),
{
    let n = Operand::Int(i);
    float_rel_is(op, b, f);
    float_rel_is(op, f, b);
    assert forall|c: u64| promotes(n, c) implies c == b by {
        promotion_is_unique(n, c, b);
    }
    assert(promotes(n, b) && promotes(Operand::Float(f), f));
    if float_holds(op, b, f) {
        assert(float_rel(op, n, Operand::Float(f)));
    }
    if float_holds(op, f, b) {
        assert(promotes(Operand::Float(f), f) && promotes(n, b) && float_holds(op, f, b));
        assert(float_rel(op, Operand::Float(f), n));
    }
}

/// Negation takes the other sign: an integer and its negation add up to nothing, save for
/// the smallest, which is its own; a float keeps its digits and turns its sign.
pub proof fn negation_turns_the_sign(i: i64, f: u64)
    ensures
        spec_neg(Kind::Int(i)) matches Outcome::Int(n) && if i == i64::MIN {
            n == i
        } else {
            i + n == 0
        },
        spec_neg(Kind::Float(f)) matches Outcome::Float(g) && g % 0x8000_0000_0000_0000 == f
            % 0x8000_0000_0000_0000 && (g < 0x8000_0000_0000_0000 <==> f >= 0x8000_0000_0000_0000),
{
}

} // verus!
