//! Dynamic arithmetic, comparison and truth on value words.
//!
//! A word is decoded into the [`crate::dynop`] core's kinds, the core decides, and the
//! result is tagged again. A character behaves as the one-character string that spells
//! it. Float arithmetic is handed back as an operation still to be done.

use vstd::prelude::*;

use crate::dynop::{binop, num, DynErr, Kind, Op, Operand, Outcome};
use crate::gc::Heap;
use crate::num::ipow;
use crate::obj::Cell;
use crate::strval::{bool_of, eq_bounded, cmp_bounded};
use crate::string::TaggedStr;
#[allow(unused_imports)]
use crate::string::{joined_without_zero, no_zero, until_zero, zeros_end_a_text};
use crate::trust::combine;
use crate::value::{JadeValue, INT_MAX, INT_MIN};
#[allow(unused_imports)]
use crate::dynop::{spec_binop, spec_neg, spec_num};
#[allow(unused_imports)]
use crate::gc::{addr_of, cell_of, cells_wf, MAX_CELLS};
#[allow(unused_imports)]
use crate::num::wrap64;
#[allow(unused_imports)]
use crate::strval::{spec_eq, spec_order, spells_false};
#[allow(unused_imports)]
use crate::trust::{spec_combine, TRUSTED};
#[allow(unused_imports)]
use crate::value::{wrap63, Val};

verus! {

/// The result of a dynamic operation: a value, or float arithmetic still to be done.
#[derive(Clone, Copy, PartialEq, Eq, Debug, Structural)]
pub enum OpValue {
    /// A value.
    Word(JadeValue),
    /// The float `a op b`.
    FloatArith(Op, Operand, Operand),
    /// The float `base ** exponent`, on promoted operands.
    FloatPow(Operand, Operand),
}

impl OpValue {
    /// The integer of an integer result.
    pub fn as_int(self) -> (i: i64)
        requires
            self is Word,
            self->Word_0@ is Int,
        ensures
            self->Word_0@ == Val::Int(i as int),
    {
        match self {
            OpValue::Word(w) => w.as_int(),
            _ => 0,
        }
    }
}

/// The result of a dynamic operation, or why it failed.
pub type OpResult = Result<OpValue, DynErr>;

// ── Decoding ─────────────────────────────────────────────────────────────────

/// The bit pattern in the float cell at an address.
pub open spec fn float_at(cells: Seq<Cell>, addr: u64) -> Option<u64> {
    let i = cell_of(addr as int);
    if 0 <= i < cells.len() && cells[i] is Float {
        Some(cells[i]->Float_0)
    } else {
        None
    }
}

/// The text and trust of the string cell at an address; an empty trusted text when
/// there is none.
pub open spec fn str_at(cells: Seq<Cell>, addr: u64) -> (Seq<char>, u8) {
    let i = cell_of(addr as int);
    if 0 <= i < cells.len() && cells[i] is Str {
        (cells[i]->Str_0.text@, cells[i]->Str_0.trust)
    } else {
        (seq![], TRUSTED)
    }
}

/// The kind of a value.
pub open spec fn spec_kind(cells: Seq<Cell>, v: Val) -> Kind {
    match v {
        Val::Int(i) => Kind::Int(i as i64),
        Val::Float(a) => match float_at(cells, a) {
            Some(b) => Kind::Float(b),
            None => Kind::Other,
        },
        Val::Bool(b) => Kind::Bool(b),
        Val::Str(_) => Kind::Str,
        Val::Nil => Kind::Nil,
        _ => Kind::Other,
    }
}

/// The text and trust of a string or character value. The zero character spells nothing.
pub open spec fn val_text(cells: Seq<Cell>, v: Val) -> (Seq<char>, u8) {
    match v {
        Val::Str(a) => str_at(cells, a),
        Val::Char(c, t) => (until_zero(seq![c]), t),
        _ => (seq![], TRUSTED),
    }
}

/// The kind of a value where a character counts as a string.
pub open spec fn kind_as_text(cells: Seq<Cell>, v: Val) -> Kind {
    if v is Char {
        Kind::Str
    } else {
        spec_kind(cells, v)
    }
}

/// The bit pattern of the boxed float at an address.
pub fn unbox_float(h: &Heap, addr: u64) -> (r: Option<u64>)
    ensures
        r == float_at(h.cells@, addr),
{
    if addr < 8 {
        return None;
    }
    let i: u64 = addr / 8 - 1;
    if i >= h.cells.len() as u64 {
        return None;
    }
    match &h.cells[i as usize] {
        Cell::Float(b) => Some(*b),
        _ => None,
    }
}

/// The string cell at an address.
pub fn string_at(h: &Heap, addr: u64) -> (r: Option<&TaggedStr>)
    ensures
        match r {
            Some(s) => str_at(h.cells@, addr) == (s.text@, s.trust) && 0 <= cell_of(addr as int)
                < h.cells@.len() && h.cells@[cell_of(addr as int)] == Cell::Str(*s),
            None => str_at(h.cells@, addr) == (Seq::<char>::empty(), TRUSTED) && !(0 <= cell_of(
                addr as int,
            ) < h.cells@.len() && h.cells@[cell_of(addr as int)] is Str),
        },
{
    if addr < 8 {
        return None;
    }
    let i: u64 = addr / 8 - 1;
    if i >= h.cells.len() as u64 {
        return None;
    }
    match &h.cells[i as usize] {
        Cell::Str(s) => Some(s),
        _ => None,
    }
}

/// The kind of a value.
pub fn kind(h: &Heap, v: JadeValue) -> (k: Kind)
    ensures
        k == spec_kind(h.cells@, v@),
{
    if v.is_int() {
        Kind::Int(v.as_int())
    } else if v.is_float() {
        match unbox_float(h, v.as_ptr()) {
            Some(b) => Kind::Float(b),
            None => Kind::Other,
        }
    } else if v.is_bool() {
        Kind::Bool(v.as_bool())
    } else if v.is_str() {
        Kind::Str
    } else if v.is_nil() {
        Kind::Nil
    } else {
        Kind::Other
    }
}

/// The text and trust of a string or character value.
pub fn text_of(h: &Heap, v: JadeValue) -> (r: (String, u8))
    ensures
        (r.0@, r.1) == val_text(h.cells@, v@),
{
    match v.as_char() {
        Some(c) => {
            let mut s = String::new();
            if c != '\0' {
                s.push(c);
            }
            assert(s@ =~= until_zero(seq![c])) by {
                reveal_with_fuel(until_zero, 2);
            }
            return (s, v.char_trust());
        },
        None => {},
    }
    if v.is_str() {
        match string_at(h, v.as_ptr()) {
            Some(s) => (s.text.clone(), s.trust),
            None => (String::new(), TRUSTED),
        }
    } else {
        (String::new(), TRUSTED)
    }
}

/// The text of a value holds no zero character.
proof fn texts_hold_no_zero(cells: Seq<Cell>, v: Val)
    requires
        cells_wf(cells),
    ensures
        no_zero(val_text(cells, v).0),
{
    match v {
        Val::Str(a) => {
            let i = cell_of(a as int);
            if 0 <= i < cells.len() && cells[i] is Str {
                assert(cells[i]->Str_0.wf());
            }
        },
        Val::Char(c, _) => zeros_end_a_text(seq![c]),
        _ => {},
    }
}

/// The kind of a value where a character counts as a string.
fn text_kind(h: &Heap, v: JadeValue) -> (k: Kind)
    ensures
        k == kind_as_text(h.cells@, v@),
{
    if v.is_char() {
        Kind::Str
    } else {
        kind(h, v)
    }
}

/// Whether either operand is a character.
pub fn either_char(a: JadeValue, b: JadeValue) -> (r: bool)
    ensures
        r == (a@ is Char || b@ is Char),
{
    a.is_char() || b.is_char()
}

// ── Results ──────────────────────────────────────────────────────────────────

/// An integer result: tagged when a word holds it, else an overflow.
pub open spec fn int_ok(v: int, r: OpResult) -> bool {
    if INT_MIN <= v <= INT_MAX {
        r is Ok && r->Ok_0 is Word && r->Ok_0->Word_0@ == Val::Int(v)
    } else {
        r == Err::<OpValue, DynErr>(DynErr::Overflow)
    }
}

/// Tag an integer result, or report overflow.
pub fn int_result(v: i64) -> (r: OpResult)
    ensures
        int_ok(v as int, r),
{
    match JadeValue::try_from_int(v) {
        Some(w) => Ok(OpValue::Word(w)),
        None => Err(DynErr::Overflow),
    }
}

/// `r` finishes the outcome `out` of an arithmetic operation on `a` and `b`, taking the
/// heap from `before` to `after`.
pub open spec fn finishes(
    out: Outcome,
    a: Val,
    b: Val,
    before: Seq<Cell>,
    after: Seq<Cell>,
    r: OpResult,
) -> bool {
    match out {
        Outcome::Int(v) => after == before && int_ok(v as int, r),
        Outcome::FloatArith(op, x, y) => after == before && r == Ok::<OpValue, DynErr>(
            OpValue::FloatArith(op, x, y),
        ),
        Outcome::Float(f) => {
            &&& after == before.push(Cell::Float(f))
            &&& r is Ok
            &&& r->Ok_0 is Word
            &&& r->Ok_0->Word_0@ == Val::Float(addr_of(before.len() as int) as u64)
        },
        Outcome::Concat => {
            let (s, t) = val_text(before, a);
            let (u, w) = val_text(before, b);
            &&& after.len() == before.len() + 1
            &&& after.drop_last() == before
            &&& after.last() is Str
            &&& after.last()->Str_0.text@ == s + u
            &&& after.last()->Str_0.trust == spec_combine(t, w)
            &&& after.last()->Str_0.rc == 1
            &&& r is Ok
            &&& r->Ok_0 is Word
            &&& r->Ok_0->Word_0@ == Val::Str(addr_of(before.len() as int) as u64)
        },
        Outcome::Fail(e) => after == before && r == Err::<OpValue, DynErr>(e),
        _ => false,
    }
}

/// The outcome is one an arithmetic operation has.
pub open spec fn arithmetic(out: Outcome) -> bool {
    !(out is Bool) && !(out is StrRel)
}

/// Finish an arithmetic outcome: tag the integer, box the float, join the strings.
fn finish(h: &mut Heap, out: Outcome, a: JadeValue, b: JadeValue) -> (r: OpResult)
    requires
        old(h).wf(),
        old(h).cells@.len() < MAX_CELLS,
        arithmetic(out),
    ensures
        final(h).wf(),
        final(h).live == old(h).live,
        final(h).rc_on == old(h).rc_on,
        finishes(out, a@, b@, old(h).cells@, final(h).cells@, r),
{
    match out {
        Outcome::Int(v) => int_result(v),
        Outcome::FloatArith(op, x, y) => Ok(OpValue::FloatArith(op, x, y)),
        Outcome::Float(f) => {
            let w: i64 = h.box_float(f);
            Ok(OpValue::Word(JadeValue::from_word(w)))
        },
        Outcome::Concat => {
            let (mut s, t) = text_of(h, a);
            let (u, x) = text_of(h, b);
            proof {
                texts_hold_no_zero(h.cells@, a@);
                texts_hold_no_zero(h.cells@, b@);
                joined_without_zero(s@, u@);
            }
            s.append(u.as_str());
            let w: i64 = h.new_str(TaggedStr::new(s, combine(t, x)));
            assert(h.cells@.drop_last() =~= old(h).cells@);
            Ok(OpValue::Word(JadeValue::from_word(w)))
        },
        Outcome::Fail(e) => Err(e),
        _ => Err(DynErr::Type),
    }
}

// ── Arithmetic ───────────────────────────────────────────────────────────────

/// `a + b`. A character counts as the string that spells it.
pub fn add(h: &mut Heap, a: JadeValue, b: JadeValue) -> (r: OpResult)
    requires
        old(h).wf(),
        old(h).cells@.len() < MAX_CELLS,
    ensures
        final(h).wf(),
        final(h).live == old(h).live,
        final(h).rc_on == old(h).rc_on,
        finishes(
            spec_binop(
                Op::Add,
                kind_as_text(old(h).cells@, a@),
                kind_as_text(old(h).cells@, b@),
            ),
            a@,
            b@,
            old(h).cells@,
            final(h).cells@,
            r,
        ),
{
    let out = binop(Op::Add, text_kind(h, a), text_kind(h, b));
    finish(h, out, a, b)
}

/// `a - b`.
pub fn sub(h: &mut Heap, a: JadeValue, b: JadeValue) -> (r: OpResult)
    requires
        old(h).wf(),
        old(h).cells@.len() < MAX_CELLS,
    ensures
        final(h).wf(),
        final(h).live == old(h).live,
        final(h).rc_on == old(h).rc_on,
        finishes(
            spec_binop(Op::Sub, spec_kind(old(h).cells@, a@), spec_kind(old(h).cells@, b@)),
            a@,
            b@,
            old(h).cells@,
            final(h).cells@,
            r,
        ),
{
    let out = binop(Op::Sub, kind(h, a), kind(h, b));
    finish(h, out, a, b)
}

/// `a * b`.
pub fn mul(h: &mut Heap, a: JadeValue, b: JadeValue) -> (r: OpResult)
    requires
        old(h).wf(),
        old(h).cells@.len() < MAX_CELLS,
    ensures
        final(h).wf(),
        final(h).live == old(h).live,
        final(h).rc_on == old(h).rc_on,
        finishes(
            spec_binop(Op::Mul, spec_kind(old(h).cells@, a@), spec_kind(old(h).cells@, b@)),
            a@,
            b@,
            old(h).cells@,
            final(h).cells@,
            r,
        ),
{
    let out = binop(Op::Mul, kind(h, a), kind(h, b));
    finish(h, out, a, b)
}

/// `a / b`.
pub fn div(h: &mut Heap, a: JadeValue, b: JadeValue) -> (r: OpResult)
    requires
        old(h).wf(),
        old(h).cells@.len() < MAX_CELLS,
    ensures
        final(h).wf(),
        final(h).live == old(h).live,
        final(h).rc_on == old(h).rc_on,
        finishes(
            spec_binop(Op::Div, spec_kind(old(h).cells@, a@), spec_kind(old(h).cells@, b@)),
            a@,
            b@,
            old(h).cells@,
            final(h).cells@,
            r,
        ),
{
    let out = binop(Op::Div, kind(h, a), kind(h, b));
    finish(h, out, a, b)
}

/// `a % b`.
pub fn rem(h: &mut Heap, a: JadeValue, b: JadeValue) -> (r: OpResult)
    requires
        old(h).wf(),
        old(h).cells@.len() < MAX_CELLS,
    ensures
        final(h).wf(),
        final(h).live == old(h).live,
        final(h).rc_on == old(h).rc_on,
        finishes(
            spec_binop(Op::Mod, spec_kind(old(h).cells@, a@), spec_kind(old(h).cells@, b@)),
            a@,
            b@,
            old(h).cells@,
            final(h).cells@,
            r,
        ),
{
    let out = binop(Op::Mod, kind(h, a), kind(h, b));
    finish(h, out, a, b)
}

/// `-a`.
pub fn neg(h: &mut Heap, a: JadeValue) -> (r: OpResult)
    requires
        old(h).wf(),
        old(h).cells@.len() < MAX_CELLS,
    ensures
        final(h).wf(),
        final(h).live == old(h).live,
        final(h).rc_on == old(h).rc_on,
        finishes(
            spec_neg(spec_kind(old(h).cells@, a@)),
            a@,
            a@,
            old(h).cells@,
            final(h).cells@,
            r,
        ),
{
    let out = crate::dynop::neg(kind(h, a));
    finish(h, out, a, a)
}

// ── Comparison ───────────────────────────────────────────────────────────────

/// The number of a bool.
pub open spec fn bit(b: bool) -> int {
    if b {
        1
    } else {
        0
    }
}

/// `a == b`: 1 or 0, or a type error for operands of different kinds.
pub open spec fn spec_eq_word(cells: Seq<Cell>, a: Val, b: Val) -> Result<int, DynErr> {
    if a is Char && b is Char {
        Ok(bit(a->Char_0 == b->Char_0))
    } else {
        match spec_binop(Op::Eq, kind_as_text(cells, a), kind_as_text(cells, b)) {
            Outcome::Bool(v) => Ok(bit(v)),
            Outcome::StrRel => Ok(bit(spec_eq(val_text(cells, a).0, val_text(cells, b).0))),
            Outcome::Fail(e) => Err(e),
            _ => Ok(0),
        }
    }
}

/// How `a` and `b` order: -1, 0 or 1, or a type error for kinds that do not order.
pub open spec fn spec_order_word(cells: Seq<Cell>, a: Val, b: Val) -> Result<int, DynErr> {
    if a is Char && b is Char {
        Ok(
            if (a->Char_0 as int) < (b->Char_0 as int) {
                -1int
            } else if (a->Char_0 as int) > (b->Char_0 as int) {
                1
            } else {
                0
            },
        )
    } else {
        let (x, y) = (kind_as_text(cells, a), kind_as_text(cells, b));
        if x is Str && y is Str {
            Ok(spec_order(val_text(cells, a).0, val_text(cells, b).0))
        } else {
            match spec_binop(Op::Lt, x, y) {
                Outcome::Bool(lt) => if lt {
                    Ok(-1int)
                } else if spec_binop(Op::Gt, x, y) == Outcome::Bool(true) {
                    Ok(1int)
                } else {
                    Ok(0int)
                },
                Outcome::Fail(e) => Err(e),
                _ => Ok(0int),
            }
        }
    }
}

/// The numeric result of an exec comparison.
pub open spec fn as_ints(r: Result<i32, DynErr>) -> Result<int, DynErr> {
    match r {
        Ok(i) => Ok(i as int),
        Err(e) => Err(e),
    }
}

/// Three-way ordering for `< > <= >=`.
pub fn cmp(h: &Heap, a: JadeValue, b: JadeValue) -> (r: Result<i32, DynErr>)
    ensures
        as_ints(r) == spec_order_word(h.cells@, a@, b@),
{
    match (a.as_char(), b.as_char()) {
        (Some(c), Some(d)) => {
            return Ok(
                if crate::text::char_less(c, d) {
                    -1
                } else if crate::text::char_less(d, c) {
                    1
                } else {
                    0
                },
            );
        },
        _ => {},
    }
    let x = text_kind(h, a);
    let y = text_kind(h, b);
    if x == Kind::Str && y == Kind::Str {
        let (s, _) = text_of(h, a);
        let (t, _) = text_of(h, b);
        return Ok(cmp_bounded(s.as_str(), t.as_str()));
    }
    match binop(Op::Lt, x, y) {
        Outcome::Bool(lt) => if lt {
            Ok(-1)
        } else {
            match binop(Op::Gt, x, y) {
                Outcome::Bool(gt) => if gt {
                    Ok(1)
                } else {
                    Ok(0)
                },
                _ => Ok(0),
            }
        },
        Outcome::Fail(e) => Err(e),
        _ => Ok(0),
    }
}

/// Equality, 1 or 0; operands of different kinds are a type error.
pub fn eq(h: &Heap, a: JadeValue, b: JadeValue) -> (r: Result<i32, DynErr>)
    ensures
        as_ints(r) == spec_eq_word(h.cells@, a@, b@),
{
    match (a.as_char(), b.as_char()) {
        (Some(c), Some(d)) => {
            return Ok(
                if c == d {
                    1
                } else {
                    0
                },
            );
        },
        _ => {},
    }
    match binop(Op::Eq, text_kind(h, a), text_kind(h, b)) {
        Outcome::Bool(v) => Ok(
            if v {
                1
            } else {
                0
            },
        ),
        Outcome::StrRel => {
            let (s, _) = text_of(h, a);
            let (t, _) = text_of(h, b);
            Ok(
                if eq_bounded(s.as_str(), t.as_str()) {
                    1
                } else {
                    0
                },
            )
        },
        Outcome::Fail(e) => Err(e),
        _ => Ok(0),
    }
}

/// Equality for membership: operands of different kinds are not equal.
pub fn eq_total(h: &Heap, a: JadeValue, b: JadeValue) -> (r: bool)
    ensures
        r == (spec_eq_word(h.cells@, a@, b@) == Ok::<int, DynErr>(1)),
{
    match eq(h, a, b) {
        Ok(i) => i == 1,
        Err(_) => false,
    }
}

// ── Numbers and truth ────────────────────────────────────────────────────────

/// A value as a number, where a bool counts as one.
pub open spec fn spec_as_num(k: Kind) -> Option<Operand> {
    match k {
        Kind::Bool(b) => Some(
            Operand::Int(
                if b {
                    1
                } else {
                    0
                },
            ),
        ),
        _ => spec_num(k),
    }
}

/// A value as a number, where a bool counts as one.
fn as_num(h: &Heap, v: JadeValue) -> (r: Option<Operand>)
    ensures
        r == spec_as_num(spec_kind(h.cells@, v@)),
{
    match kind(h, v) {
        Kind::Bool(b) => Some(
            Operand::Int(
                if b {
                    1
                } else {
                    0
                },
            ),
        ),
        k => num(k),
    }
}

/// `a ** b`. Integers with a non-negative exponent stay an integer, wrapped to what a
/// word holds; anything else numeric is a float power still to be done.
pub fn pow(h: &Heap, a: JadeValue, b: JadeValue) -> (r: OpResult)
    ensures
        (a@ is Int && b@ is Int && b@->Int_0 >= 0) ==> r is Ok && r->Ok_0 is Word
            && r->Ok_0->Word_0@ == Val::Int(
            wrap63(wrap64(vstd::arithmetic::power::pow(a@->Int_0, b@->Int_0 as nat))),
        ),
        !(a@ is Int && b@ is Int && b@->Int_0 >= 0) ==> r == (match (
            spec_as_num(spec_kind(h.cells@, a@)),
            spec_as_num(spec_kind(h.cells@, b@)),
        ) {
            (Some(x), Some(y)) => Ok::<OpValue, DynErr>(OpValue::FloatPow(x, y)),
            _ => Err::<OpValue, DynErr>(DynErr::Type),
        }),
{
    if a.is_int() && b.is_int() {
        let base: i64 = a.as_int();
        let exp: i64 = b.as_int();
        if exp >= 0 {
            return Ok(OpValue::Word(JadeValue::from_int(ipow(base, exp))));
        }
    }
    match (as_num(h, a), as_num(h, b)) {
        (Some(x), Some(y)) => Ok(OpValue::FloatPow(x, y)),
        _ => Err(DynErr::Type),
    }
}

/// A value as a number still to be promoted to a float, or a type error.
pub fn to_double(h: &Heap, v: JadeValue) -> (r: Result<Operand, DynErr>)
    ensures
        r == (match spec_as_num(spec_kind(h.cells@, v@)) {
            Some(x) => Ok::<Operand, DynErr>(x),
            None => Err::<Operand, DynErr>(DynErr::Type),
        }),
{
    match as_num(h, v) {
        Some(x) => Ok(x),
        None => Err(DynErr::Type),
    }
}

/// The truth of a value: nil is false, a number is true unless zero, a string is true
/// unless empty or a spelling of `false`. Anything else reads as an empty string.
pub open spec fn spec_truth(cells: Seq<Cell>, v: Val) -> bool {
    match v {
        Val::Int(i) => i != 0,
        Val::Bool(b) => b,
        Val::Nil => false,
        Val::Float(a) => match float_at(cells, a) {
            Some(f) => f % 0x8000_0000_0000_0000 != 0,
            None => false,
        },
        _ => {
            let s = val_text(cells, v).0;
            s.len() > 0 && !spells_false(s)
        },
    }
}

/// Truth, 1 or 0.
pub fn to_bool(h: &Heap, v: JadeValue) -> (r: i32)
    ensures
        r == bit(spec_truth(h.cells@, v@)),
{
    let t: bool = if v.is_int() {
        v.as_int() != 0
    } else if v.is_bool() {
        v.as_bool()
    } else if v.is_nil() {
        false
    } else if v.is_float() {
        match unbox_float(h, v.as_ptr()) {
            Some(f) => f % 0x8000_0000_0000_0000 != 0,
            None => false,
        }
    } else {
        let (s, _) = text_of(h, v);
        bool_of(s.as_str())
    };
    if t {
        1
    } else {
        0
    }
}

// ── Shifts ───────────────────────────────────────────────────────────────────

/// Why a shift was refused.
#[derive(Clone, Copy, PartialEq, Eq, Debug, Structural)]
pub enum ShiftErr {
    /// The amount is outside `0..64`.
    Amount(i64),
    /// The shifted value does not fit a word.
    Overflow,
}

/// Two to the power `n`, for a shift amount.
fn pow2_of(n: i64) -> (p: i128)
    requires
        0 <= n < 64,
    ensures
        p == vstd::arithmetic::power2::pow2(n as nat),
        1 <= p <= 0x8000_0000_0000_0000,
{
    let mut p: i128 = 1;
    let mut i: i64 = 0;
    proof {
        vstd::arithmetic::power2::lemma2_to64();
    }
    while i < n
        invariant
            0 <= i <= n < 64,
            p == vstd::arithmetic::power2::pow2(i as nat),
            1 <= p <= 0x8000_0000_0000_0000,
        decreases n - i,
    {
        proof {
            vstd::arithmetic::power2::lemma_pow2_unfold((i + 1) as nat);
            vstd::arithmetic::power2::lemma2_to64_rest();
            if i + 1 < 63 {
                vstd::arithmetic::power2::lemma_pow2_strictly_increases((i + 1) as nat, 63);
            }
        }
        p = p * 2;
        i = i + 1;
    }
    p
}

/// `a << n`: the amount must be in `0..64` and the result must fit a word. No bit is
/// lost before the range is checked.
pub fn shl(a: i64, n: i64) -> (r: Result<i64, ShiftErr>)
    ensures
        !(0 <= n < 64) ==> r == Err::<i64, ShiftErr>(ShiftErr::Amount(n)),
        0 <= n < 64 ==> ({
            let wide = a * vstd::arithmetic::power2::pow2(n as nat);
            if INT_MIN <= wide <= INT_MAX {
                r == Ok::<i64, ShiftErr>(wide as i64)
            } else {
                r == Err::<i64, ShiftErr>(ShiftErr::Overflow)
            }
        }),
{
    if !(0 <= n && n < 64) {
        return Err(ShiftErr::Amount(n));
    }
    let p: i128 = pow2_of(n);
    assert(-0x8000_0000_0000_0000 * 0x8000_0000_0000_0000 <= a * p <= 0x8000_0000_0000_0000
        * 0x8000_0000_0000_0000) by (nonlinear_arith)
        requires
            1 <= p <= 0x8000_0000_0000_0000,
            -0x8000_0000_0000_0000 <= a <= 0x8000_0000_0000_0000,
    ;
    let wide: i128 = a as i128 * p;
    if wide > INT_MAX as i128 || wide < INT_MIN as i128 {
        return Err(ShiftErr::Overflow);
    }
    Ok(wide as i64)
}

/// `a >> n`, keeping the sign: division by a power of two, rounded down. The amount
/// must be in `0..64`.
pub fn shr(a: i64, n: i64) -> (r: Result<i64, ShiftErr>)
    ensures
        !(0 <= n < 64) ==> r == Err::<i64, ShiftErr>(ShiftErr::Amount(n)),
        0 <= n < 64 ==> r == Ok::<i64, ShiftErr>(
            (a as int / vstd::arithmetic::power2::pow2(n as nat) as int) as i64,
        ),
{
    if !(0 <= n && n < 64) {
        return Err(ShiftErr::Amount(n));
    }
    let p: i128 = pow2_of(n);
    proof {
        floor_in_range(a as int, p as int);
    }
    match (a as i128).checked_div_euclid(p) {
        Some(q) => Ok(q as i64),
        None => Ok(0),
    }
}

/// A quotient rounded down stays between the number and zero, or at minus one.
proof fn floor_in_range(a: int, p: int)
    requires
        p >= 1,
        i64::MIN <= a <= i64::MAX,
    ensures
        i64::MIN <= a / p <= i64::MAX,
{
    assert(i64::MIN <= a / p <= i64::MAX) by (nonlinear_arith)
        requires
            p >= 1,
            i64::MIN <= a <= i64::MAX,
    ;
}

// ── Laws ─────────────────────────────────────────────────────────────────────

/// Shifting left and back gives the number back, whenever the left shift fits.
pub proof fn shr_undoes_shl(a: int, n: nat)
    requires
        n < 64,
    ensures
        (a * vstd::arithmetic::power2::pow2(n)) / (vstd::arithmetic::power2::pow2(n) as int) == a,
{
    vstd::arithmetic::power2::lemma_pow2_pos(n);
    let p = vstd::arithmetic::power2::pow2(n) as int;
    assert((a * p) / p == a) by (nonlinear_arith)
        requires
            p > 0,
    ;
}

// ── What the operators give ──────────────────────────────────────────────────

/// A cell is read at its own address, as what it is.
pub proof fn cells_are_read_at_their_address(cells: Seq<Cell>, i: int)
    requires
        0 <= i < cells.len() <= MAX_CELLS,
    ensures
        cells[i] matches Cell::Float(b) ==> {
            &&& float_at(cells, addr_of(i) as u64) == Some(b)
            &&& spec_kind(cells, Val::Float(addr_of(i) as u64)) == Kind::Float(b)
            &&& val_text(cells, Val::Str(addr_of(i) as u64)) == (Seq::<char>::empty(), TRUSTED)
        },
        cells[i] matches Cell::Str(s) ==> {
            &&& val_text(cells, Val::Str(addr_of(i) as u64)) == (s.text@, s.trust)
            &&& float_at(cells, addr_of(i) as u64) is None
            &&& spec_kind(cells, Val::Float(addr_of(i) as u64)) == Kind::Other
        },
{
    assert(addr_of(i) <= u64::MAX);
    assert(cell_of(addr_of(i) as u64 as int) == i);
}

/// Numbers that fit a word are handed on as they are, and the others are an overflow.
pub proof fn results_fit_or_overflow(v: int, r: OpResult)
    requires
        int_ok(v, r),
    ensures
        r matches Ok(OpValue::Word(w)) ==> w@ == Val::Int(v),
        r is Ok ==> -0x4000_0000_0000_0000 <= v <= 0x3fff_ffff_ffff_ffff,
        r matches Err(e) ==> e == DynErr::Overflow && !(-0x4000_0000_0000_0000 <= v
            <= 0x3fff_ffff_ffff_ffff),
        r matches Ok(o) ==> o is Word,
{
}

/// Two integers give the sum, the difference or the product, or an overflow, and nothing
/// is allocated.
pub proof fn integers_compute_in_words(
    op: Op,
    x: i64,
    y: i64,
    before: Seq<Cell>,
    after: Seq<Cell>,
    r: OpResult,
)
    requires
        op is Add || op is Sub || op is Mul,
        finishes(
            spec_binop(
                op,
                kind_as_text(before, Val::Int(x as int)),
                kind_as_text(before, Val::Int(y as int)),
            ),
            Val::Int(x as int),
            Val::Int(y as int),
            before,
            after,
            r,
        ),
    ensures
        after == before,
        ({
            let v: int = if op is Add {
                x + y
            } else if op is Sub {
                x - y
            } else {
                x * y
            };
            if -0x4000_0000_0000_0000 <= v <= 0x3fff_ffff_ffff_ffff {
                r matches Ok(OpValue::Word(w)) && w@ == Val::Int(v)
            } else {
                r == Err::<OpValue, DynErr>(DynErr::Overflow)
            }
        }),
{
}

/// Adding two texts allocates the left one followed by the right one, and answers where it
/// lies. Whatever was there before stays.
pub proof fn texts_add_in_order(
    a: Val,
    b: Val,
    before: Seq<Cell>,
    after: Seq<Cell>,
    r: OpResult,
)
    requires
        a is Str || a is Char,
        b is Str || b is Char,
        before.len() < MAX_CELLS,
        finishes(
            spec_binop(Op::Add, kind_as_text(before, a), kind_as_text(before, b)),
            a,
            b,
            before,
            after,
            r,
        ),
    ensures
        r matches Ok(OpValue::Word(w)) && {
            &&& w@ is Str
            &&& val_text(after, w@).0 == val_text(before, a).0 + val_text(before, b).0
            &&& val_text(after, w@).1 == spec_combine(val_text(before, a).1, val_text(before, b).1)
        },
        after.len() == before.len() + 1,
        forall|i: int| 0 <= i < before.len() ==> #[trigger] after[i] == before[i],
{
    assert forall|i: int| 0 <= i < before.len() implies #[trigger] after[i] == before[i] by {
        assert(after.drop_last()[i] == before[i]);
    }
    cells_are_read_at_their_address(after, before.len() as int);
}

/// A failed operation leaves the heap alone, and so does one that hands float arithmetic
/// back, operands as they stand.
pub proof fn refused_operations_allocate_nothing(
    op: Op,
    x: Operand,
    y: Operand,
    e: DynErr,
    a: Val,
    b: Val,
    before: Seq<Cell>,
    after: Seq<Cell>,
    r: OpResult,
)
    ensures
        finishes(Outcome::Fail(e), a, b, before, after, r) ==> r == Err::<OpValue, DynErr>(e)
            && after == before,
        finishes(Outcome::FloatArith(op, x, y), a, b, before, after, r) ==> r == Ok::<
            OpValue,
            DynErr,
        >(OpValue::FloatArith(op, x, y)) && after == before,
{
}

/// A float result is allocated behind what was there, and answered by its address.
pub proof fn float_results_are_boxed(
    f: u64,
    a: Val,
    b: Val,
    before: Seq<Cell>,
    after: Seq<Cell>,
    r: OpResult,
)
    requires
        before.len() < MAX_CELLS,
        finishes(Outcome::Float(f), a, b, before, after, r),
    ensures
        r matches Ok(OpValue::Word(w)) && spec_kind(after, w@) == Kind::Float(f),
        after == before.push(Cell::Float(f)),
{
    cells_are_read_at_their_address(after, before.len() as int);
}

/// Equality answers one for equal values and zero for others: integers, bools and
/// characters by value, texts by what they hold, nil with itself alone.
pub proof fn equality_answers_one_for_equals(cells: Seq<Cell>, a: Val, b: Val)
    ensures
        a is Int && b is Int && i64::MIN <= a->Int_0 <= i64::MAX && i64::MIN <= b->Int_0
            <= i64::MAX ==> spec_eq_word(cells, a, b) == Ok::<int, DynErr>(
            if a->Int_0 == b->Int_0 {
                1int
            } else {
                0int
            },
        ),
        a is Bool && b is Bool ==> spec_eq_word(cells, a, b) == Ok::<int, DynErr>(
            if a->Bool_0 == b->Bool_0 {
                1int
            } else {
                0int
            },
        ),
        a is Char && b is Char ==> spec_eq_word(cells, a, b) == Ok::<int, DynErr>(
            if a->Char_0 == b->Char_0 {
                1int
            } else {
                0int
            },
        ),
        (a is Str && (b is Str || b is Char)) || (a is Char && b is Str) ==> spec_eq_word(
            cells,
            a,
            b,
        ) == Ok::<int, DynErr>(
            if spec_eq(val_text(cells, a).0, val_text(cells, b).0) {
                1int
            } else {
                0int
            },
        ),
        a is Nil ==> spec_eq_word(cells, a, b) == Ok::<int, DynErr>(
            if b is Nil {
                1int
            } else {
                0int
            },
        ),
        spec_eq_word(cells, a, b) == spec_eq_word(cells, b, a),
{
}

/// Order answers minus one below, one above and zero between: integers and characters by
/// value, `false` below `true`, texts by what they hold. Nil has no order.
pub proof fn order_answers_the_sign(cells: Seq<Cell>, a: Val, b: Val)
    ensures
        a is Int && b is Int && i64::MIN <= a->Int_0 <= i64::MAX && i64::MIN <= b->Int_0
            <= i64::MAX ==> {
            &&& spec_order_word(cells, a, b) == Ok::<int, DynErr>(-1) <==> a->Int_0 < b->Int_0
            &&& spec_order_word(cells, a, b) == Ok::<int, DynErr>(1) <==> a->Int_0 > b->Int_0
            &&& spec_order_word(cells, a, b) == Ok::<int, DynErr>(0) <==> a->Int_0 == b->Int_0
        },
        a is Bool && b is Bool ==> {
            &&& spec_order_word(cells, a, b) == Ok::<int, DynErr>(-1) <==> !a->Bool_0 && b->Bool_0
            &&& spec_order_word(cells, a, b) == Ok::<int, DynErr>(1) <==> a->Bool_0 && !b->Bool_0
            &&& spec_order_word(cells, a, b) == Ok::<int, DynErr>(0) <==> a->Bool_0 == b->Bool_0
        },
        a is Char && b is Char ==> {
            &&& spec_order_word(cells, a, b) == Ok::<int, DynErr>(-1) <==> (a->Char_0 as int) < (
            b->Char_0 as int)
            &&& spec_order_word(cells, a, b) == Ok::<int, DynErr>(1) <==> (a->Char_0 as int) > (
            b->Char_0 as int)
            &&& spec_order_word(cells, a, b) is Ok
        },
        (a is Str && (b is Str || b is Char)) || (a is Char && b is Str) ==> spec_order_word(
            cells,
            a,
            b,
        ) == Ok::<int, DynErr>(spec_order(val_text(cells, a).0, val_text(cells, b).0)),
        a is Nil || b is Nil ==> spec_order_word(cells, a, b) == Err::<int, DynErr>(DynErr::Type),
{
}

/// The answers are the numbers themselves, and errors stay errors.
pub proof fn answers_are_numbers(r: Result<i32, DynErr>)
    ensures
        r matches Ok(i) ==> as_ints(r) == Ok::<int, DynErr>(i as int),
        r matches Err(e) ==> as_ints(r) == Err::<int, DynErr>(e),
{
}

/// False are zero, the two float zeros, `false`, nil, the empty text and a text that
/// spells `false`; every other number and text is true.
pub proof fn truth_by_kind(cells: Seq<Cell>, i: int, b: bool, a: u64, c: char, t: u8)
    ensures
        spec_truth(cells, Val::Int(i)) <==> i != 0,
        spec_truth(cells, Val::Bool(b)) <==> b,
        !spec_truth(cells, Val::Nil),
        float_at(cells, a) matches Some(f) ==> (spec_truth(cells, Val::Float(a)) <==> f != 0 && f
            != 0x8000_0000_0000_0000),
        spec_truth(cells, Val::Str(a)) <==> str_at(cells, a).0.len() > 0 && !spells_false(
            str_at(cells, a).0,
        ),
        spec_truth(cells, Val::Char(c, t)) <==> c != '\0',
        bit(b) == 1 <==> b,
        bit(b) == 0 <==> !b,
{
    let s = seq![c];
    reveal_with_fuel(until_zero, 3);
    assert(s.drop_first().len() == 0);
}

/// As an operand a bool counts as one or nothing, a number as itself, and nothing else is
/// one.
pub proof fn bools_count_as_operands(k: Kind)
    ensures
        spec_as_num(Kind::Bool(true)) == Some(Operand::Int(1)),
        spec_as_num(Kind::Bool(false)) == Some(Operand::Int(0)),
        k matches Kind::Int(i) ==> spec_as_num(k) == Some(Operand::Int(i)),
        k matches Kind::Float(f) ==> spec_as_num(k) == Some(Operand::Float(f)),
        k is Str || k is Nil || k is Other ==> spec_as_num(k) is None,
{
}

} // verus!
