//! What generated code is told: the code of an operation's outcome, and the name of a
//! value's type.

use vstd::prelude::*;

use crate::cstr::borrow;
use crate::dynop::{DynErr, Operand};
use crate::gc::Heap;
use crate::obj::Obj;
use crate::ops::{self, OpResult, OpValue};
use crate::string::{trust_of, TaggedStr};
use crate::trust::combine;
use crate::value::JadeValue;
#[allow(unused_imports)]
use crate::cstr::{emits, text_or_empty, trust_or_trusted};
#[allow(unused_imports)]
use crate::dynop::{spec_binop, spec_neg, Op};
#[allow(unused_imports)]
use crate::gc::MAX_CELLS;
#[allow(unused_imports)]
use crate::num::wrap64;
#[allow(unused_imports)]
use crate::ops::{
    bit, finishes, kind_as_text, spec_as_num, spec_eq_word, spec_kind, spec_order_word, spec_truth,
};
#[allow(unused_imports)]
use crate::trust::spec_combine;
#[allow(unused_imports)]
use crate::ffi_coll::object_at;
#[allow(unused_imports)]
use crate::obj::Cell;
#[allow(unused_imports)]
use crate::value::{decode, wrap63, Val};

verus! {

/// No error; the value is valid.
pub const JRT_OP_OK: u32 = 0;

/// Division by zero.
pub const JRT_OP_DIVZERO: u32 = 1;

/// An operand of the wrong kind.
pub const JRT_OP_TYPE: u32 = 2;

/// An integer result that no word holds.
pub const JRT_OP_OVERFLOW: u32 = 3;

/// Modulo by zero.
pub const JRT_OP_REMZERO: u32 = 4;

/// The version of the value and heap layout.
pub const RUNTIME_ABI_VERSION: u32 = 1;

/// The version generated code must have been built for.
pub fn jrt_abi_version() -> (v: u32)
    ensures
        v == RUNTIME_ABI_VERSION,
{
    RUNTIME_ABI_VERSION
}

/// The code of an error.
pub open spec fn spec_code(e: DynErr) -> u32 {
    match e {
        DynErr::DivZero => JRT_OP_DIVZERO,
        DynErr::Type => JRT_OP_TYPE,
        DynErr::Overflow => JRT_OP_OVERFLOW,
        DynErr::RemZero => JRT_OP_REMZERO,
    }
}

/// The code of an error.
pub fn err_code(e: DynErr) -> (c: u32)
    ensures
        c == spec_code(e),
{
    match e {
        DynErr::DivZero => JRT_OP_DIVZERO,
        DynErr::Type => JRT_OP_TYPE,
        DynErr::Overflow => JRT_OP_OVERFLOW,
        DynErr::RemZero => JRT_OP_REMZERO,
    }
}

/// The outcome of an operation that makes a value: the value when there is one, and the
/// code.
pub fn finish(r: OpResult) -> (out: (Option<OpValue>, u32))
    ensures
        match r {
            Ok(v) => out == (Some(v), JRT_OP_OK),
            Err(e) => out == (None::<OpValue>, spec_code(e)),
        },
{
    match r {
        Ok(v) => (Some(v), JRT_OP_OK),
        Err(e) => (None, err_code(e)),
    }
}

/// The outcome of a comparison: the answer, or 0, and the code.
pub fn finish_test(r: Result<i32, DynErr>) -> (out: (i32, u32))
    ensures
        match r {
            Ok(v) => out == (v, JRT_OP_OK),
            Err(e) => out == (0i32, spec_code(e)),
        },
{
    match r {
        Ok(v) => (v, JRT_OP_OK),
        Err(e) => (0, err_code(e)),
    }
}

/// An error has a code of its own, and none is the code of success.
pub proof fn codes_are_distinct(a: DynErr, b: DynErr)
    ensures
        spec_code(a) != JRT_OP_OK,
        spec_code(a) == spec_code(b) <==> a == b,
{
}

// ── Operations on words ──────────────────────────────────────────────────────

/// The outcome that was reported.
pub open spec fn reported(out: (Option<OpValue>, u32)) -> OpResult {
    match out.0 {
        Some(v) => Ok(v),
        None => Err(
            if out.1 == JRT_OP_DIVZERO {
                DynErr::DivZero
            } else if out.1 == JRT_OP_TYPE {
                DynErr::Type
            } else if out.1 == JRT_OP_OVERFLOW {
                DynErr::Overflow
            } else {
                DynErr::RemZero
            },
        ),
    }
}

/// A value comes with the code of success, and nothing with the code of an error.
pub open spec fn coded(out: (Option<OpValue>, u32)) -> bool {
    match reported(out) {
        Ok(_) => out.1 == JRT_OP_OK,
        Err(e) => out.1 == spec_code(e),
    }
}

/// The sum of two words, or their texts joined.
pub fn jrt_core_add(h: &mut Heap, a: i64, b: i64) -> (out: (Option<OpValue>, u32))
    requires
        old(h).wf(),
        old(h).cells@.len() < MAX_CELLS,
    ensures
        final(h).wf(),
        final(h).rc_on == old(h).rc_on,
        coded(out),
        finishes(
            spec_binop(
                Op::Add,
                kind_as_text(old(h).cells@, decode(a as u64)),
                kind_as_text(old(h).cells@, decode(b as u64)),
            ),
            decode(a as u64),
            decode(b as u64),
            old(h).cells@,
            final(h).cells@,
            reported(out),
        ),
{
    let r = ops::add(h, JadeValue::from_word(a), JadeValue::from_word(b));
    finish(r)
}

/// The difference of two words.
pub fn jrt_core_sub(h: &mut Heap, a: i64, b: i64) -> (out: (Option<OpValue>, u32))
    requires
        old(h).wf(),
        old(h).cells@.len() < MAX_CELLS,
    ensures
        final(h).wf(),
        final(h).rc_on == old(h).rc_on,
        coded(out),
        finishes(
            spec_binop(
                Op::Sub,
                spec_kind(old(h).cells@, decode(a as u64)),
                spec_kind(old(h).cells@, decode(b as u64)),
            ),
            decode(a as u64),
            decode(b as u64),
            old(h).cells@,
            final(h).cells@,
            reported(out),
        ),
{
    let r = ops::sub(h, JadeValue::from_word(a), JadeValue::from_word(b));
    finish(r)
}

/// The product of two words.
pub fn jrt_core_mul(h: &mut Heap, a: i64, b: i64) -> (out: (Option<OpValue>, u32))
    requires
        old(h).wf(),
        old(h).cells@.len() < MAX_CELLS,
    ensures
        final(h).wf(),
        final(h).rc_on == old(h).rc_on,
        coded(out),
        finishes(
            spec_binop(
                Op::Mul,
                spec_kind(old(h).cells@, decode(a as u64)),
                spec_kind(old(h).cells@, decode(b as u64)),
            ),
            decode(a as u64),
            decode(b as u64),
            old(h).cells@,
            final(h).cells@,
            reported(out),
        ),
{
    let r = ops::mul(h, JadeValue::from_word(a), JadeValue::from_word(b));
    finish(r)
}

/// The quotient of two words.
pub fn jrt_core_div(h: &mut Heap, a: i64, b: i64) -> (out: (Option<OpValue>, u32))
    requires
        old(h).wf(),
        old(h).cells@.len() < MAX_CELLS,
    ensures
        final(h).wf(),
        final(h).rc_on == old(h).rc_on,
        coded(out),
        finishes(
            spec_binop(
                Op::Div,
                spec_kind(old(h).cells@, decode(a as u64)),
                spec_kind(old(h).cells@, decode(b as u64)),
            ),
            decode(a as u64),
            decode(b as u64),
            old(h).cells@,
            final(h).cells@,
            reported(out),
        ),
{
    let r = ops::div(h, JadeValue::from_word(a), JadeValue::from_word(b));
    finish(r)
}

/// The remainder of two words.
pub fn jrt_core_mod(h: &mut Heap, a: i64, b: i64) -> (out: (Option<OpValue>, u32))
    requires
        old(h).wf(),
        old(h).cells@.len() < MAX_CELLS,
    ensures
        final(h).wf(),
        final(h).rc_on == old(h).rc_on,
        coded(out),
        finishes(
            spec_binop(
                Op::Mod,
                spec_kind(old(h).cells@, decode(a as u64)),
                spec_kind(old(h).cells@, decode(b as u64)),
            ),
            decode(a as u64),
            decode(b as u64),
            old(h).cells@,
            final(h).cells@,
            reported(out),
        ),
{
    let r = ops::rem(h, JadeValue::from_word(a), JadeValue::from_word(b));
    finish(r)
}

/// One word to the power of another.
pub fn jrt_core_pow(h: &Heap, a: i64, b: i64) -> (out: (Option<OpValue>, u32))
    ensures
        coded(out),
        match (decode(a as u64), decode(b as u64)) {
            (Val::Int(x), Val::Int(y)) if y >= 0 => out.0 matches Some(OpValue::Word(v)) && v@
                == Val::Int(wrap63(wrap64(vstd::arithmetic::power::pow(x, y as nat)))),
            _ => reported(out) == (match (
                spec_as_num(spec_kind(h.cells@, decode(a as u64))),
                spec_as_num(spec_kind(h.cells@, decode(b as u64))),
            ) {
                (Some(x), Some(y)) => Ok::<OpValue, DynErr>(OpValue::FloatPow(x, y)),
                _ => Err::<OpValue, DynErr>(DynErr::Type),
            }),
        },
{
    finish(ops::pow(h, JadeValue::from_word(a), JadeValue::from_word(b)))
}

/// A word negated.
pub fn jrt_core_neg(h: &mut Heap, a: i64) -> (out: (Option<OpValue>, u32))
    requires
        old(h).wf(),
        old(h).cells@.len() < MAX_CELLS,
    ensures
        final(h).wf(),
        final(h).rc_on == old(h).rc_on,
        coded(out),
        finishes(
            spec_neg(spec_kind(old(h).cells@, decode(a as u64))),
            decode(a as u64),
            decode(a as u64),
            old(h).cells@,
            final(h).cells@,
            reported(out),
        ),
{
    let r = ops::neg(h, JadeValue::from_word(a));
    finish(r)
}

/// What a comparison reports: the answer and success, or 0 and the error's code.
pub open spec fn test_code(r: Result<int, DynErr>) -> (int, u32) {
    match r {
        Ok(v) => (v, JRT_OP_OK),
        Err(e) => (0, spec_code(e)),
    }
}

/// How two words are ordered: -1, 0 or 1.
pub fn jrt_core_cmp(h: &Heap, a: i64, b: i64) -> (out: (i32, u32))
    ensures
        ints_of(out) == test_code(spec_order_word(h.cells@, value_of(a), value_of(b))),
{
    finish_test(ops::cmp(h, JadeValue::from_word(a), JadeValue::from_word(b)))
}

/// Whether two words of one kind are equal: 1 or 0. Words of different kinds are an
/// error.
pub fn jrt_core_eq(h: &Heap, a: i64, b: i64) -> (out: (i32, u32))
    ensures
        ints_of(out) == test_code(spec_eq_word(h.cells@, value_of(a), value_of(b))),
{
    finish_test(ops::eq(h, JadeValue::from_word(a), JadeValue::from_word(b)))
}

/// The value a word stands for.
pub open spec fn value_of(w: i64) -> Val {
    decode(w as u64)
}

/// A comparison's report over the integers.
pub open spec fn ints_of(out: (i32, u32)) -> (int, u32) {
    (out.0 as int, out.1)
}

/// Whether two words are equal: 1 or 0. Words of different kinds are not.
pub fn jrt_core_eq_total(h: &Heap, a: i64, b: i64) -> (r: i32)
    ensures
        r == (if spec_eq_word(h.cells@, value_of(a), value_of(b)) == Ok::<int, DynErr>(1) {
            1int
        } else {
            0
        }),
{
    if ops::eq_total(h, JadeValue::from_word(a), JadeValue::from_word(b)) {
        1
    } else {
        0
    }
}

/// A word as a number to promote to a float, or the code of a type error.
pub fn jrt_core_to_double(h: &Heap, w: i64) -> (out: (Option<Operand>, u32))
    ensures
        out.0 == spec_as_num(spec_kind(h.cells@, value_of(w))),
        out.1 == (if out.0 is Some {
            JRT_OP_OK
        } else {
            JRT_OP_TYPE
        }),
{
    match ops::to_double(h, JadeValue::from_word(w)) {
        Ok(x) => (Some(x), JRT_OP_OK),
        Err(e) => (None, err_code(e)),
    }
}

/// Whether a word counts as true: 1 or 0.
pub fn jrt_to_bool(h: &Heap, w: i64) -> (r: i32)
    ensures
        r == bit(spec_truth(h.cells@, value_of(w))),
{
    ops::to_bool(h, JadeValue::from_word(w))
}

/// The text of two strings that may be absent, joined, as strict as the stricter.
pub fn jrt_str_concat(a: Option<&TaggedStr>, b: Option<&TaggedStr>) -> (r: TaggedStr)
    ensures
        emits(
            r,
            text_or_empty(a) + text_or_empty(b),
            spec_combine(trust_or_trusted(a), trust_or_trusted(b)),
        ),
{
    let mut text = borrow(a).to_owned();
    text.append(borrow(b));
    TaggedStr::new(text, combine(trust_of(a), trust_of(b)))
}

/// The name an operand error gives a value's type.
pub open spec fn operand_type(cells: Seq<Cell>, w: i64) -> Seq<char> {
    match decode(w as u64) {
        Val::Int(_) => "int"@,
        Val::Float(_) => "float"@,
        Val::Bool(_) => "bool"@,
        Val::Str(_) => "str"@,
        Val::Nil => "nil"@,
        Val::Ptr(_) => match object_at(cells, w) {
            Some(Obj::Array(_)) => "array"@,
            Some(Obj::Dict(_)) => "dict"@,
            Some(Obj::Struct(_)) => "struct"@,
            _ => "value"@,
        },
        _ => "value"@,
    }
}

/// The name an operand error gives a value's type.
pub fn jrt_core_type_name(h: &Heap, w: i64) -> (s: &'static str)
    ensures
        s@ == operand_type(h.cells@, w),
{
    let v = JadeValue::from_word(w);
    if v.is_int() {
        "int"
    } else if v.is_float() {
        "float"
    } else if v.is_bool() {
        "bool"
    } else if v.is_str() {
        "str"
    } else if v.is_nil() {
        "nil"
    } else if v.is_ptr() {
        match h.object(w) {
            Some(Obj::Array(_)) => "array",
            Some(Obj::Dict(_)) => "dict",
            Some(Obj::Struct(_)) => "struct",
            _ => "value",
        }
    } else {
        "value"
    }
}

/// A reported code says which error it was, and a value is reported as it is.
pub proof fn codes_report_their_error(e: DynErr, v: OpValue, n: int, c: u32)
    ensures
        reported((None, spec_code(e))) == Err::<OpValue, DynErr>(e),
        reported((Some(v), c)) == Ok::<OpValue, DynErr>(v),
        coded((Some(v), c)) <==> c == JRT_OP_OK,
        coded((None, spec_code(e))),
        test_code(Ok(n)) == (n, JRT_OP_OK),
        test_code(Err(e)) == (0int, spec_code(e)),
{
    codes_are_distinct(e, DynErr::DivZero);
    codes_are_distinct(e, DynErr::Type);
    codes_are_distinct(e, DynErr::Overflow);
}

/// The answer and the code are handed on as they are.
pub proof fn answers_keep_their_code(n: i32, c: u32)
    ensures
        ints_of((n, c)).0 == n,
        ints_of((n, c)).1 == c,
{
}

/// An operand is named by its type, and what has no name of its own is a value.
pub proof fn operands_are_named_by_type(cells: Seq<Cell>, w: i64)
    ensures
        decode(w as u64) is Int ==> operand_type(cells, w) == "int"@,
        decode(w as u64) is Float ==> operand_type(cells, w) == "float"@,
        decode(w as u64) is Bool ==> operand_type(cells, w) == "bool"@,
        decode(w as u64) is Str ==> operand_type(cells, w) == "str"@,
        decode(w as u64) is Nil ==> operand_type(cells, w) == "nil"@,
        decode(w as u64) is Char || decode(w as u64) is Junk ==> operand_type(cells, w)
            == "value"@,
        decode(w as u64) is Ptr && object_at(cells, w) is None ==> operand_type(cells, w)
            == "value"@,
        decode(w as u64) is Ptr ==> (object_at(cells, w) matches Some(o) ==> operand_type(cells, w)
            == if o is Array {
            "array"@
        } else if o is Dict {
            "dict"@
        } else if o is Struct {
            "struct"@
        } else {
            "value"@
        }),
{
}

} // verus!
