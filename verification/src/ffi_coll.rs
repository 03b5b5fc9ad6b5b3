//! Collections on the heap, by the words that point at them.
//!
//! A container takes a reference to what is put into it while counting is on, and what
//! is taken out of a copy is shared, not copied.

use vstd::prelude::*;

use crate::coll::{ArrayObj, DictObj, StructObj};
use crate::floatbits::{float_lt, float_of_int};
use crate::gc::Heap;
use crate::obj::{Cell, Obj};
use crate::ops::{string_at, unbox_float};
use crate::sort::sort_by_key;
use crate::strf::split;
use crate::string::TaggedStr;
use crate::text::str_less;
use crate::trust::{TAINTED, TRUSTED};
use crate::value::JadeValue;
#[allow(unused_imports)]
use crate::coll::{dict_max, lookup, put, put_keeps_unique, unique_keys};
#[allow(unused_imports)]
use crate::cstr::emits;
#[allow(unused_imports)]
use crate::floatbits::{comparable, float_of_is_unique, is_float_of, place, spec_is_nan};
#[allow(unused_imports)]
use crate::gc::{cell_of, counts_leave, edit_keeps_cells, points_at, retain_all};
#[allow(unused_imports)]
use crate::gc::{retained, target, word_roundtrip, MAX_CELLS};
#[allow(unused_imports)]
use crate::jsonf::extends;
#[allow(unused_imports)]
use crate::ops::{float_at, str_at};
#[allow(unused_imports)]
use crate::sort::{by_key, keyed, sorting_sorts};
#[allow(unused_imports)]
use crate::store::entry_views;
#[allow(unused_imports)]
use crate::strf::parts_at;
#[allow(unused_imports)]
use crate::string::until_zero;
#[allow(unused_imports)]
use crate::text::{lex_irreflexive, lex_less, lex_total, lex_transitive, texts};
#[allow(unused_imports)]
use crate::value::{decode, wrap63, Val};
#[allow(unused_imports)]
use crate::gc::fresh_from;
#[allow(unused_imports)]
use crate::heap::ObjKind;

verus! {

// ── What words point at ──────────────────────────────────────────────────────

/// The object a word points at.
pub open spec fn object_at(cells: Seq<Cell>, w: i64) -> Option<Obj> {
    let i = points_at(w);
    if 0 <= i < cells.len() {
        match cells[i] {
            Cell::Obj(o) => Some(o),
            _ => None,
        }
    } else {
        None
    }
}

/// The array a word points at.
pub open spec fn array_at(cells: Seq<Cell>, w: i64) -> Option<ArrayObj> {
    match object_at(cells, w) {
        Some(Obj::Array(a)) => Some(a),
        _ => None,
    }
}

/// The dict a word points at.
pub open spec fn dict_at(cells: Seq<Cell>, w: i64) -> Option<DictObj> {
    match object_at(cells, w) {
        Some(Obj::Dict(d)) => Some(d),
        _ => None,
    }
}

/// The struct a word points at.
pub open spec fn struct_at(cells: Seq<Cell>, w: i64) -> Option<StructObj> {
    match object_at(cells, w) {
        Some(Obj::Struct(s)) => Some(s),
        _ => None,
    }
}

/// The cells once a container has taken a reference to a word, which it does while
/// counting is on.
pub open spec fn held(cells: Seq<Cell>, on: bool, w: i64) -> Seq<Cell> {
    match target(cells, w) {
        Some(i) => if on {
            cells.update(i, Cell::Obj(retained(cells[i]->Obj_0)))
        } else {
            cells
        },
        None => cells,
    }
}

/// The count of the object a word points at leaves room for one more reference.
pub open spec fn can_hold(cells: Seq<Cell>, w: i64) -> bool {
    target(cells, w) matches Some(i) ==> cells[i]->Obj_0.hdr().rc < u32::MAX
}

/// Only the object of a word changed.
pub open spec fn only_changes(before: Seq<Cell>, after: Seq<Cell>, w: i64) -> bool {
    after == before.update(points_at(w), after[points_at(w)])
}

/// Holding a word changes headers only.
proof fn held_keeps_objects(cells: Seq<Cell>, on: bool, w: i64, x: i64)
    ensures
        held(cells, on, w).len() == cells.len(),
        array_at(cells, x) matches Some(a) ==> (array_at(held(cells, on, w), x) matches Some(b)
            && b@ == a@ && b.header.len == a.header.len),
        dict_at(cells, x) matches Some(a) ==> (dict_at(held(cells, on, w), x) matches Some(b)
            && b@ == a@ && b.header.len == a.header.len),
        struct_at(cells, x) matches Some(a) ==> (struct_at(held(cells, on, w), x) matches Some(b)
            && b@ == a@ && b.struct_name == a.struct_name && b.header.len == a.header.len),
{
    let i = points_at(x);
    if target(cells, w) == Some(i) && on {
        let o = cells[i]->Obj_0;
        let p = retained(o);
        match o {
            Obj::Array(a) => {
                p->Array_0.same_elements(&a);
            },
            Obj::Dict(a) => {
                p->Dict_0.same_slots(&a);
            },
            Obj::Struct(a) => {
                p->Struct_0.same_fields(&a);
            },
            _ => {},
        }
    }
}

/// The kind byte of the object a word points at.
pub fn jrt_kind_of(h: &Heap, w: i64) -> (r: Option<i64>)
    ensures
        match object_at(h.cells@, w) {
            Some(o) => r matches Some(k) && k == crate::heap::spec_kind_byte(o.spec_kind()),
            None => r is None,
        },
{
    match h.object(w) {
        Some(o) => Some(o.kind().byte() as i64),
        None => None,
    }
}

/// The element count in the header of the object a word points at.
pub fn jrt_coll_len(h: &Heap, w: i64) -> (r: Option<i64>)
    ensures
        match object_at(h.cells@, w) {
            Some(o) => r matches Some(n) && n == o.hdr().len,
            None => r is None,
        },
{
    match h.object(w) {
        Some(o) => Some(o.header().len as i64),
        None => None,
    }
}

/// What `len` answers: the characters of a text, one for a character, the element count
/// of a collection, and nothing for anything else.
pub open spec fn length_of(cells: Seq<Cell>, w: i64) -> int {
    match decode(w as u64) {
        Val::Char(_, _) => 1,
        Val::Str(a) => str_at(cells, a).0.len() as int,
        Val::Ptr(_) => match object_at(cells, w) {
            Some(o) => o.hdr().len as int,
            None => 0,
        },
        _ => 0,
    }
}

/// `len(x)`.
pub fn jrt_len_chunk(h: &Heap, w: i64) -> (r: i64)
    requires
        length_of(h.cells@, w) <= i64::MAX,
    ensures
        r == length_of(h.cells@, w),
{
    let v = JadeValue::from_word(w);
    if v.is_char() {
        return 1;
    }
    if v.is_str() {
        return match string_at(h, v.as_ptr()) {
            Some(s) => s.text.as_str().unicode_len() as i64,
            None => 0,
        };
    }
    match h.object(w) {
        Some(o) => o.header().len as i64,
        None => 0,
    }
}

/// The word of nothing.
fn nil_word() -> (w: i64)
    ensures
        decode(w as u64) == Val::Nil,
{
    let v = JadeValue::nil();
    proof {
        word_roundtrip(v.bits);
    }
    v.word()
}

// ── Arrays ───────────────────────────────────────────────────────────────────

/// The header of a new array, which holds its length.
pub open spec fn new_header(a: ArrayObj) -> bool {
    a.header.fresh(ObjKind::Array) && a.synced()
}

/// A new empty array.
pub fn jrt_karr_new(h: &mut Heap) -> (w: i64)
    requires
        old(h).wf(),
        old(h).cells@.len() < MAX_CELLS,
    ensures
        final(h).wf(),
        final(h).rc_on == old(h).rc_on,
        extends(old(h).cells@, final(h).cells@),
        final(h).cells@.len() == old(h).cells@.len() + 1,
        points_at(w) == old(h).cells@.len(),
        array_at(final(h).cells@, w) matches Some(a) && a@ == Seq::<i64>::empty() && new_header(a),
{
    h.leak_obj(Obj::Array(ArrayObj::new()))
}

/// The array of a word has these elements after a change to it alone. Its header holds
/// the new length, and is otherwise the one it had.
pub open spec fn array_becomes(
    before: Seq<Cell>,
    after: Seq<Cell>,
    w: i64,
    s: Seq<i64>,
) -> bool {
    &&& only_changes(before, after, w)
    &&& array_at(after, w) matches Some(a) && a@ == s && a.header == array_at(
        before,
        w,
    )->Some_0.header.with_len(s.len() as u32)
}

/// Append a word to an array, which takes a reference to it.
pub fn jrt_karr_push(h: &mut Heap, arr: i64, val: i64)
    requires
        old(h).wf(),
        array_at(old(h).cells@, arr) is Some,
        can_hold(old(h).cells@, val),
    ensures
        final(h).wf(),
        final(h).rc_on == old(h).rc_on,
        array_becomes(
            held(old(h).cells@, old(h).rc_on, val),
            final(h).cells@,
            arr,
            array_at(old(h).cells@, arr)->Some_0@.push(val),
        ),
{
    proof {
        held_keeps_objects(h.cells@, h.rc_on, val, arr);
    }
    h.retain(val);
    let ghost mid = h.cells@;
    let i: usize = cell_index(h, arr);
    match &mut h.cells[i] {
        Cell::Obj(Obj::Array(a)) => {
            a.push(val);
        },
        _ => {},
    }
    proof {
        let o = h.cells@[i as int]->Obj_0;
        edit_keeps_cells(mid, i as int, o);
        assert(h.cells@ =~= mid.update(i as int, Cell::Obj(o)));
    }
}

/// The number of the cell a word points at.
pub(crate) fn cell_index(h: &Heap, w: i64) -> (i: usize)
    requires
        0 <= points_at(w) < h.cells@.len(),
    ensures
        i == points_at(w),
{
    let v = JadeValue::from_word(w);
    let n: usize = h.cells.len();
    assert(points_at(w) < n);
    (v.as_ptr() / 8 - 1) as usize
}

/// The number of elements of an array.
pub fn jrt_coll_array_len(h: &Heap, arr: i64) -> (r: i64)
    requires
        array_at(h.cells@, arr) matches Some(a) && a@.len() <= i64::MAX,
    ensures
        r == array_at(h.cells@, arr)->Some_0@.len(),
{
    match h.object(arr) {
        Some(Obj::Array(a)) => a.len() as i64,
        _ => 0,
    }
}

/// The element at an index, or nil outside the array.
pub fn jrt_coll_array_get(h: &Heap, arr: i64, i: i64) -> (w: i64)
    requires
        array_at(h.cells@, arr) is Some,
    ensures
        ({
            let s = array_at(h.cells@, arr)->Some_0@;
            if 0 <= i < s.len() {
                w == s[i as int]
            } else {
                decode(w as u64) == Val::Nil
            }
        }),
{
    match h.object(arr) {
        Some(Obj::Array(a)) => if i >= 0 && (i as u64) < a.len() as u64 {
            match a.get(i as usize) {
                Some(w) => *w,
                None => nil_word(),
            }
        } else {
            nil_word()
        },
        _ => nil_word(),
    }
}

/// Overwrite the element at an index; outside the array nothing is overwritten. The
/// array takes a reference to the word, and keeps the one to what it overwrote.
pub fn jrt_coll_array_set(h: &mut Heap, arr: i64, i: i64, val: i64)
    requires
        old(h).wf(),
        array_at(old(h).cells@, arr) is Some,
        can_hold(old(h).cells@, val),
    ensures
        final(h).wf(),
        final(h).rc_on == old(h).rc_on,
        array_becomes(
            held(old(h).cells@, old(h).rc_on, val),
            final(h).cells@,
            arr,
            ({
                let s = array_at(old(h).cells@, arr)->Some_0@;
                if 0 <= i < s.len() {
                    s.update(i as int, val)
                } else {
                    s
                }
            }),
        ),
{
    proof {
        held_keeps_objects(h.cells@, h.rc_on, val, arr);
    }
    h.retain(val);
    let ghost mid = h.cells@;
    let k: usize = cell_index(h, arr);
    match &mut h.cells[k] {
        Cell::Obj(Obj::Array(a)) => {
            if i >= 0 && (i as u64) < a.len() as u64 {
                let _ = a.set(i as usize, val);
            }
        },
        _ => {},
    }
    proof {
        let o = h.cells@[k as int]->Obj_0;
        edit_keeps_cells(mid, k as int, o);
        assert(h.cells@ =~= mid.update(k as int, Cell::Obj(o)));
    }
}

/// Remove the last element of an array and return it; nil when it is empty.
pub fn jrt_coll_array_pop(h: &mut Heap, arr: i64) -> (w: i64)
    requires
        old(h).wf(),
        array_at(old(h).cells@, arr) is Some,
    ensures
        final(h).wf(),
        final(h).rc_on == old(h).rc_on,
        ({
            let s = array_at(old(h).cells@, arr)->Some_0@;
            if s.len() > 0 {
                w == s.last() && array_becomes(
                    old(h).cells@,
                    final(h).cells@,
                    arr,
                    s.drop_last(),
                )
            } else {
                decode(w as u64) == Val::Nil && array_becomes(
                    old(h).cells@,
                    final(h).cells@,
                    arr,
                    s,
                )
            }
        }),
{
    let ghost mid = h.cells@;
    let k: usize = cell_index(h, arr);
    let mut r: Option<i64> = None;
    match &mut h.cells[k] {
        Cell::Obj(Obj::Array(a)) => {
            r = a.pop();
        },
        _ => {},
    }
    proof {
        let o = h.cells@[k as int]->Obj_0;
        edit_keeps_cells(mid, k as int, o);
        assert(h.cells@ =~= mid.update(k as int, Cell::Obj(o)));
    }
    match r {
        Some(w) => w,
        None => nil_word(),
    }
}

/// Put these elements in the place of an array's own, as many as there are.
fn overwrite(h: &mut Heap, arr: i64, v: &[i64])
    requires
        old(h).wf(),
        array_at(old(h).cells@, arr) is Some,
        v@.len() == array_at(old(h).cells@, arr)->Some_0@.len(),
    ensures
        final(h).wf(),
        final(h).rc_on == old(h).rc_on,
        array_becomes(old(h).cells@, final(h).cells@, arr, v@),
{
    let k: usize = cell_index(h, arr);
    let ghost start = h.cells@;
    let ghost header = array_at(h.cells@, arr)->Some_0.header;
    assert(h.cells@[k as int]->Obj_0.wf());
    let ghost first = array_at(h.cells@, arr)->Some_0@;
    let mut i: usize = 0;
    assert(start.update(k as int, start[k as int]) =~= start);
    while i < v.len()
        invariant
            i <= v@.len(),
            k == points_at(arr),
            0 <= k < h.cells@.len(),
            h.wf(),
            h.rc_on == old(h).rc_on,
            first.len() == v@.len(),
            start.len() == h.cells@.len(),
            only_changes(start, h.cells@, arr),
            array_at(h.cells@, arr) matches Some(a) && a.header == header && a@ == v@.take(
                i as int,
            ) + first.skip(i as int),
        decreases v@.len() - i,
    {
        let ghost mid = h.cells@;
        match &mut h.cells[k] {
            Cell::Obj(Obj::Array(a)) => {
                let _ = a.set(i, v[i]);
            },
            _ => {},
        }
        proof {
            let o = h.cells@[k as int]->Obj_0;
            edit_keeps_cells(mid, k as int, o);
            assert(h.cells@ =~= mid.update(k as int, Cell::Obj(o)));
            assert(h.cells@ =~= start.update(k as int, h.cells@[k as int]));
            assert(o->Array_0@ =~= v@.take(i + 1) + first.skip(i + 1));
        }
        i += 1;
    }
    assert(v@.take(i as int) + first.skip(i as int) =~= v@);
}

/// Reverse an array in place.
pub fn jrt_coll_array_reverse(h: &mut Heap, arr: i64)
    requires
        old(h).wf(),
        array_at(old(h).cells@, arr) is Some,
    ensures
        final(h).wf(),
        final(h).rc_on == old(h).rc_on,
        array_becomes(
            old(h).cells@,
            final(h).cells@,
            arr,
            array_at(old(h).cells@, arr)->Some_0@.reverse(),
        ),
{
    let mut v: Vec<i64> = Vec::new();
    let ghost s = array_at(h.cells@, arr)->Some_0@;
    match h.object(arr) {
        Some(Obj::Array(a)) => {
            let data = a.as_slice();
            let mut i: usize = data.len();
            while i > 0
                invariant
                    i <= data@.len(),
                    data@ == s,
                    v@.len() == data@.len() - i,
                    forall|k: int| 0 <= k < v@.len() ==> v@[k] == s[s.len() - 1 - k],
                decreases i,
            {
                i -= 1;
                v.push(data[i]);
            }
        },
        _ => {},
    }
    assert(v@ =~= s.reverse());
    overwrite(h, arr, v.as_slice());
}

// ── Sorting ──────────────────────────────────────────────────────────────────

/// The float a number word is, for ordering.
pub open spec fn as_float(cells: Seq<Cell>, w: i64) -> Option<u64> {
    match decode(w as u64) {
        Val::Int(i) => Some(choose|b: u64| is_float_of(i, b)),
        Val::Float(a) => float_at(cells, a),
        _ => None,
    }
}

/// -1, 0 or 1 as `a` is below, at or above `b`.
pub open spec fn sign_of(a: int, b: int) -> int {
    if a < b {
        -1int
    } else if a == b {
        0
    } else {
        1
    }
}

/// How two words are ordered by `sort`: integers and other numbers by value, texts by
/// their characters, and false before true. Any other two compare equal.
pub open spec fn order_of(cells: Seq<Cell>, a: i64, b: i64) -> int {
    match (decode(a as u64), decode(b as u64)) {
        (Val::Int(x), Val::Int(y)) => sign_of(x, y),
        (Val::Str(x), Val::Str(y)) => {
            let s = str_at(cells, x).0;
            let t = str_at(cells, y).0;
            if lex_less(s, t) {
                -1int
            } else if lex_less(t, s) {
                1
            } else {
                0
            }
        },
        (Val::Bool(x), Val::Bool(y)) => if !x && y {
            -1int
        } else if x && !y {
            1
        } else {
            0
        },
        _ => match (as_float(cells, a), as_float(cells, b)) {
            (Some(x), Some(y)) => if comparable(x, y) {
                sign_of(place(x), place(y))
            } else {
                0
            },
            _ => 0,
        },
    }
}

/// The float a number word is.
fn float_of_word(h: &Heap, w: i64) -> (r: Option<u64>)
    ensures
        r == as_float(h.cells@, w),
{
    let v = JadeValue::from_word(w);
    if v.is_int() {
        let i: i64 = v.as_int();
        let b: u64 = float_of_int(i);
        proof {
            let c = choose|c: u64| is_float_of(i as int, c);
            assert(is_float_of(i as int, b));
            float_of_is_unique(i as int, b, c);
        }
        return Some(b);
    }
    if v.is_float() {
        return unbox_float(h, v.as_ptr());
    }
    None
}

/// How two words are ordered: -1, 0 or 1.
pub fn order_for_sort(h: &Heap, a: i64, b: i64) -> (r: i8)
    ensures
        r == order_of(h.cells@, a, b),
{
    let va = JadeValue::from_word(a);
    let vb = JadeValue::from_word(b);
    if va.is_int() && vb.is_int() {
        let x: i64 = va.as_int();
        let y: i64 = vb.as_int();
        return if x < y {
            -1
        } else if x == y {
            0
        } else {
            1
        };
    }
    if va.is_str() && vb.is_str() {
        let none = String::new();
        let s = match string_at(h, va.as_ptr()) {
            Some(t) => t.text.as_str(),
            None => none.as_str(),
        };
        let t = match string_at(h, vb.as_ptr()) {
            Some(t) => t.text.as_str(),
            None => none.as_str(),
        };
        return if str_less(s, t) {
            -1
        } else if str_less(t, s) {
            1
        } else {
            0
        };
    }
    if va.is_bool() && vb.is_bool() {
        let x: bool = va.as_bool();
        let y: bool = vb.as_bool();
        return if !x && y {
            -1
        } else if x && !y {
            1
        } else {
            0
        };
    }
    match (float_of_word(h, a), float_of_word(h, b)) {
        (Some(x), Some(y)) => {
            if float_lt(x, y) {
                -1
            } else if float_lt(y, x) {
                1
            } else {
                0
            }
        },
        _ => 0,
    }
}

/// Where a word goes among sorted ones: behind the last that is not above it.
pub open spec fn word_slot(cells: Seq<Cell>, s: Seq<i64>, w: i64) -> int
    decreases s.len(),
{
    if s.len() > 0 && order_of(cells, w, s.last()) < 0 {
        word_slot(cells, s.drop_last(), w)
    } else {
        s.len() as int
    }
}

/// Words sorted one after the other; those that compare equal keep their order.
pub open spec fn sorted_words(cells: Seq<Cell>, s: Seq<i64>) -> Seq<i64>
    decreases s.len(),
{
    if s.len() == 0 {
        seq![]
    } else {
        let t = sorted_words(cells, s.drop_last());
        t.insert(word_slot(cells, t, s.last()), s.last())
    }
}

/// A slot lies within the words.
proof fn word_slot_within(cells: Seq<Cell>, s: Seq<i64>, w: i64)
    ensures
        0 <= word_slot(cells, s, w) <= s.len(),
    decreases s.len(),
{
    if s.len() > 0 && order_of(cells, w, s.last()) < 0 {
        word_slot_within(cells, s.drop_last(), w);
    }
}

/// Sorting keeps the number of words.
proof fn sorted_words_len(cells: Seq<Cell>, s: Seq<i64>)
    ensures
        sorted_words(cells, s).len() == s.len(),
    decreases s.len(),
{
    if s.len() > 0 {
        sorted_words_len(cells, s.drop_last());
        word_slot_within(cells, sorted_words(cells, s.drop_last()), s.last());
    }
}

/// Sort an array in place.
pub fn jrt_coll_array_sort(h: &mut Heap, arr: i64)
    requires
        old(h).wf(),
        array_at(old(h).cells@, arr) is Some,
    ensures
        final(h).wf(),
        final(h).rc_on == old(h).rc_on,
        array_becomes(
            old(h).cells@,
            final(h).cells@,
            arr,
            sorted_words(old(h).cells@, array_at(old(h).cells@, arr)->Some_0@),
        ),
{
    let mut v: Vec<i64> = Vec::new();
    let ghost s = array_at(h.cells@, arr)->Some_0@;
    match h.object(arr) {
        Some(Obj::Array(a)) => {
            let data = a.as_slice();
            let mut i: usize = 0;
            assert(s.take(0) =~= seq![]);
            while i < data.len()
                invariant
                    i <= data@.len(),
                    data@ == s,
                    v@ == sorted_words(h.cells@, s.take(i as int)),
                decreases data@.len() - i,
            {
                let w: i64 = data[i];
                let mut k: usize = v.len();
                assert(v@.take(k as int) =~= v@);
                while k > 0 && order_for_sort(h, w, v[k - 1]) < 0
                    invariant
                        k <= v@.len(),
                        word_slot(h.cells@, v@.take(k as int), w) == word_slot(
                            h.cells@,
                            v@,
                            w,
                        ),
                    decreases k,
                {
                    assert(v@.take(k as int).last() == v@[k - 1]);
                    assert(v@.take(k as int).drop_last() =~= v@.take(k - 1));
                    k -= 1;
                }
                proof {
                    if k > 0 {
                        assert(v@.take(k as int).last() == v@[k - 1]);
                    }
                }
                v.insert(k, w);
                i += 1;
                assert(s.take(i as int).drop_last() =~= s.take(i - 1));
                assert(s.take(i as int).last() == w);
            }
            assert(s.take(i as int) =~= s);
        },
        _ => {},
    }
    proof {
        sorted_words_len(h.cells@, s);
    }
    overwrite(h, arr, v.as_slice());
}

/// Sorting keeps exactly the words.
pub proof fn sorting_permutes(cells: Seq<Cell>, s: Seq<i64>)
    ensures
        sorted_words(cells, s).to_multiset() == s.to_multiset(),
        sorted_words(cells, s).len() == s.len(),
    decreases s.len(),
{
    broadcast use vstd::seq_lib::group_to_multiset_ensures;

    if s.len() > 0 {
        sorting_permutes(cells, s.drop_last());
        let t = sorted_words(cells, s.drop_last());
        word_slot_within(cells, t, s.last());
        let k = word_slot(cells, t, s.last());
        t.insert_ensures(k, s.last());
        vstd::seq_lib::to_multiset_insert(t, k, s.last());
        assert(s =~= s.drop_last().push(s.last()));
        vstd::seq_lib::to_multiset_build(s.drop_last(), s.last());
    } else {
        assert(s =~= seq![]);
    }
}

/// The words are all of one ordered kind: integers, texts, booleans, or floats that are
/// numbers.
pub open spec fn one_kind(cells: Seq<Cell>, s: Seq<i64>) -> bool {
    ||| forall|i: int| 0 <= i < s.len() ==> decode(#[trigger] s[i] as u64) is Int
    ||| forall|i: int| 0 <= i < s.len() ==> decode(#[trigger] s[i] as u64) is Str
    ||| forall|i: int| 0 <= i < s.len() ==> decode(#[trigger] s[i] as u64) is Bool
    ||| forall|i: int|
        0 <= i < s.len() ==> (decode(#[trigger] s[i] as u64) matches Val::Float(a) && (float_at(
            cells,
            a,
        ) matches Some(b) && !spec_is_nan(b)))
}

/// The words ascend.
pub open spec fn words_ascend(cells: Seq<Cell>, s: Seq<i64>) -> bool {
    forall|i: int, j: int|
        0 <= i <= j < s.len() ==> order_of(cells, #[trigger] s[i], #[trigger] s[j]) <= 0
}

/// The order is transitive, and one word is not below another that is not above it.
proof fn order_is_total(cells: Seq<Cell>, a: i64, b: i64, c: i64)
    requires
        one_kind(cells, seq![a, b, c]),
    ensures
        order_of(cells, a, b) <= 0 && order_of(cells, b, c) <= 0 ==> order_of(cells, a, c) <= 0,
        order_of(cells, a, b) < 0 ==> order_of(cells, b, a) > 0,
        order_of(cells, a, b) >= 0 ==> order_of(cells, b, a) <= 0,
        order_of(cells, a, a) == 0,
{
    let s = seq![a, b, c];
    assert(s[0] == a && s[1] == b && s[2] == c);
    if decode(a as u64) is Str {
        let x = str_at(cells, decode(a as u64)->Str_0).0;
        lex_irreflexive(x);
        if decode(b as u64) is Str {
            let y = str_at(cells, decode(b as u64)->Str_0).0;
            lex_total(x, y);
            lex_irreflexive(y);
            if lex_less(x, y) && lex_less(y, x) {
                lex_transitive(x, y, x);
            }
            if decode(c as u64) is Str {
                let z = str_at(cells, decode(c as u64)->Str_0).0;
                lex_total(x, z);
                lex_total(y, z);
                lex_irreflexive(z);
                if lex_less(x, y) && lex_less(y, z) {
                    lex_transitive(x, y, z);
                }
                if lex_less(z, x) && lex_less(x, y) {
                    lex_transitive(z, x, y);
                }
                if lex_less(z, x) && lex_less(y, z) {
                    lex_transitive(y, z, x);
                }
            }
        }
    }
}

/// An array of one ordered kind is sorted: its elements ascend.
pub proof fn sorting_ascends(cells: Seq<Cell>, s: Seq<i64>)
    requires
        one_kind(cells, s),
    ensures
        words_ascend(cells, sorted_words(cells, s)),
        one_kind(cells, sorted_words(cells, s)),
        sorted_words(cells, s).len() == s.len(),
    decreases s.len(),
{
    if s.len() > 0 {
        let r = s.drop_last();
        assert(one_kind(cells, r)) by {
            assert forall|i: int| 0 <= i < r.len() implies r[i] == #[trigger] s[i] by {}
            kind_of_part(cells, s, r);
        }
        sorting_ascends(cells, r);
        let t = sorted_words(cells, r);
        let w = s.last();
        word_slot_within(cells, t, w);
        let k = word_slot(cells, t, w);
        let u = t.insert(k, w);
        kind_of_insert(cells, s, t, w, k);
        slot_splits(cells, t, w, s);
        assert(u[k] == w);
        three_of(cells, u, w, w, w);
        order_is_total(cells, w, w, w);
        let le = |a: i64, b: i64| order_of(cells, a, b) <= 0;
        insertion_keeps_order(le, t, w, k);
        assert forall|i: int, j: int| 0 <= i <= j < u.len() implies order_of(
            cells,
            #[trigger] u[i],
            #[trigger] u[j],
        ) <= 0 by {
            assert(le(u[i], u[j]));
        }
    }
}

/// Putting an element where it belongs keeps a sequence in order.
proof fn insertion_keeps_order(le: spec_fn(i64, i64) -> bool, t: Seq<i64>, w: i64, k: int)
    requires
        0 <= k <= t.len(),
        forall|i: int, j: int| 0 <= i <= j < t.len() ==> le(#[trigger] t[i], #[trigger] t[j]),
        forall|i: int| 0 <= i < k ==> le(#[trigger] t[i], w),
        forall|i: int| k <= i < t.len() ==> le(w, #[trigger] t[i]),
        le(w, w),
    ensures
        ({
            let u = t.insert(k, w);
            forall|i: int, j: int| 0 <= i <= j < u.len() ==> le(#[trigger] u[i], #[trigger] u[j])
        }),
{
    let u = t.insert(k, w);
    assert forall|i: int, j: int| 0 <= i <= j < u.len() implies le(
        #[trigger] u[i],
        #[trigger] u[j],
    ) by {
        if i < k {
            assert(u[i] == t[i]);
        } else if i > k {
            assert(u[i] == t[i - 1]);
        }
        if j < k {
            assert(u[j] == t[j]);
        } else if j > k {
            assert(u[j] == t[j - 1]);
        }
    }
}

/// Three words of a sequence of one kind are of one kind.
proof fn three_of(cells: Seq<Cell>, s: Seq<i64>, a: i64, b: i64, c: i64)
    requires
        one_kind(cells, s),
        s.contains(a),
        s.contains(b),
        s.contains(c),
    ensures
        one_kind(cells, seq![a, b, c]),
{
    let i = s.index_of(a);
    let j = s.index_of(b);
    let k = s.index_of(c);
    assert(s[i] == a && s[j] == b && s[k] == c);
    let t = seq![a, b, c];
    assert forall|n: int| 0 <= n < 3 implies s.contains(#[trigger] t[n]) by {}
}

/// A part of a sequence of one kind is of one kind.
proof fn kind_of_part(cells: Seq<Cell>, s: Seq<i64>, r: Seq<i64>)
    requires
        one_kind(cells, s),
        r.len() <= s.len(),
        forall|i: int| 0 <= i < r.len() ==> r[i] == #[trigger] s[i],
    ensures
        one_kind(cells, r),
{
    assert forall|i: int| 0 <= i < r.len() implies s[i] == #[trigger] r[i] by {}
}

/// Putting a word of the kind among others keeps the kind.
proof fn kind_of_insert(cells: Seq<Cell>, s: Seq<i64>, t: Seq<i64>, w: i64, k: int)
    requires
        one_kind(cells, s),
        s.len() > 0,
        w == s.last(),
        t == sorted_words(cells, s.drop_last()),
        0 <= k <= t.len(),
    ensures
        one_kind(cells, t.insert(k, w)),
        forall|i: int| 0 <= i < t.len() ==> s.contains(#[trigger] t[i]),
{
    let r = s.drop_last();
    sorting_permutes(cells, r);
    let u = t.insert(k, w);
    assert forall|i: int| 0 <= i < t.len() implies s.contains(#[trigger] t[i]) by {
        broadcast use vstd::seq_lib::group_to_multiset_ensures;

        assert(t.contains(t[i]));
        assert(t.to_multiset().count(t[i]) > 0);
        assert(r.to_multiset().count(t[i]) > 0);
        assert(r.contains(t[i]));
        let j = r.index_of(t[i]);
        assert(s[j] == t[i]);
    }
    assert forall|i: int| 0 <= i < u.len() implies s.contains(#[trigger] u[i]) by {
        if i < k {
            assert(u[i] == t[i]);
        } else if i == k {
            assert(s[s.len() - 1] == w);
        } else {
            assert(u[i] == t[i - 1]);
        }
    }
    assert forall|i: int| 0 <= i < u.len() implies exists|j: int|
        0 <= j < s.len() && s[j] == #[trigger] u[i] by {
        let j = s.index_of(u[i]);
        assert(s[j] == u[i]);
    }
}

/// What is not above a word that another is not below is not above that one.
proof fn not_above(cells: Seq<Cell>, s: Seq<i64>, a: i64, b: i64, w: i64)
    requires
        one_kind(cells, s),
        s.contains(a),
        s.contains(b),
        s.contains(w),
        order_of(cells, a, b) <= 0,
        order_of(cells, w, b) >= 0,
    ensures
        order_of(cells, a, w) <= 0,
{
    three_of(cells, s, w, b, a);
    order_is_total(cells, w, b, a);
    three_of(cells, s, a, b, w);
    order_is_total(cells, a, b, w);
}

/// Everything before the slot is not above the word, everything behind it is.
#[verifier::spinoff_prover]
#[verifier::rlimit(60)]
proof fn slot_splits(cells: Seq<Cell>, t: Seq<i64>, w: i64, s: Seq<i64>)
    requires
        one_kind(cells, s),
        s.contains(w),
        words_ascend(cells, t),
        forall|i: int| 0 <= i < t.len() ==> s.contains(#[trigger] t[i]),
    ensures
        forall|i: int|
            0 <= i < word_slot(cells, t, w) ==> order_of(cells, #[trigger] t[i], w) <= 0,
        forall|i: int|
            word_slot(cells, t, w) <= i < t.len() ==> order_of(cells, w, #[trigger] t[i]) <= 0,
    decreases t.len(),
{
    word_slot_within(cells, t, w);
    if t.len() > 0 {
        let n = t.len() - 1;
        assert(t.last() == t[n]);
        if order_of(cells, w, t.last()) < 0 {
            let r = t.drop_last();
            assert forall|i: int, j: int| 0 <= i <= j < r.len() implies order_of(
                cells,
                #[trigger] r[i],
                #[trigger] r[j],
            ) <= 0 by {
                assert(r[i] == t[i] && r[j] == t[j]);
            }
            assert forall|i: int| 0 <= i < r.len() implies s.contains(#[trigger] r[i]) by {
                assert(r[i] == t[i]);
            }
            slot_splits(cells, r, w, s);
            word_slot_within(cells, r, w);
            assert forall|i: int| 0 <= i < word_slot(cells, t, w) implies order_of(
                cells,
                #[trigger] t[i],
                w,
            ) <= 0 by {
                assert(t[i] == r[i]);
            }
            assert forall|i: int| word_slot(cells, t, w) <= i < t.len() implies order_of(
                cells,
                w,
                #[trigger] t[i],
            ) <= 0 by {
                if i < r.len() {
                    assert(t[i] == r[i]);
                }
            }
        } else {
            assert forall|i: int| 0 <= i < t.len() implies order_of(
                cells,
                #[trigger] t[i],
                w,
            ) <= 0 by {
                assert(s.contains(t[n]));
                assert(order_of(cells, t[i], t[n]) <= 0);
                not_above(cells, s, t[i], t[n], w);
            }
        }
    }
}

// ── Arrays of texts ──────────────────────────────────────────────────────────

/// The words stand for the texts, all with the same trust.
pub open spec fn stand_for(cells: Seq<Cell>, ws: Seq<i64>, t: Seq<Seq<char>>, trust: u8) -> bool {
    &&& ws.len() == t.len()
    &&& forall|i: int| 0 <= i < t.len() ==> word_stands_for(cells, ws[i], #[trigger] t[i], trust)
}

/// The word stands for the text, which ends at its first zero character.
pub open spec fn word_stands_for(cells: Seq<Cell>, w: i64, t: Seq<char>, trust: u8) -> bool {
    decode(w as u64) matches Val::Str(a) && 0 <= cell_of(a as int) < cells.len() && str_at(
        cells,
        a,
    ) == (until_zero(t), trust) && cells[cell_of(a as int)] is Str
}

/// The cell a string word points at; -1 for any other word.
pub open spec fn text_cell(w: i64) -> int {
    match decode(w as u64) {
        Val::Str(a) => cell_of(a as int),
        _ => -1,
    }
}

/// A new array of texts: the array, and what its words stand for, each in a cell of its
/// own.
pub open spec fn new_text_array(
    before: Seq<Cell>,
    after: Seq<Cell>,
    w: i64,
    t: Seq<Seq<char>>,
    trust: u8,
) -> bool {
    &&& extends(before, after)
    &&& fresh_from(after, before.len() as int)
    &&& after.len() == before.len() + t.len() + 1
    &&& points_at(w) == after.len() - 1
    &&& array_at(after, w) matches Some(a) && stand_for(after, a@, t, trust) && a.synced()
        && forall|i: int|
        0 <= i < t.len() ==> text_cell(#[trigger] a@[i]) == before.len() + i
}

/// A new array of texts.
pub(crate) fn text_array(h: &mut Heap, parts: &[String], trust: u8) -> (w: i64)
    requires
        old(h).wf(),
        old(h).cells@.len() + parts@.len() + 1 <= MAX_CELLS,
    ensures
        final(h).wf(),
        final(h).rc_on == old(h).rc_on,
        new_text_array(old(h).cells@, final(h).cells@, w, texts(parts@), trust),
{
    let mut arr = ArrayObj::new();
    let ghost start = h.cells@;
    let ghost t = texts(parts@);
    let mut i: usize = 0;
    while i < parts.len()
        invariant
            i <= parts@.len(),
            start == old(h).cells@,
            t == texts(parts@),
            h.wf(),
            h.rc_on == old(h).rc_on,
            start.len() + parts@.len() + 1 <= MAX_CELLS,
            h.cells@.len() == start.len() + i,
            extends(start, h.cells@),
            fresh_from(h.cells@, start.len() as int),
            new_header(arr),
            arr@.len() == i,
            forall|k: int|
                0 <= k < i ==> word_stands_for(h.cells@, arr@[k], #[trigger] t[k], trust),
            forall|k: int| 0 <= k < i ==> text_cell(#[trigger] arr@[k]) == start.len() + k,
        decreases parts@.len() - i,
    {
        let ghost before = h.cells@;
        let ghost words = arr@;
        assert(t[i as int] == parts@[i as int]@);
        let w: i64 = h.new_str(TaggedStr::dup(parts[i].as_str(), trust));
        arr.push(w);
        i += 1;
        proof {
            assert forall|k: int| 0 <= k < i implies word_stands_for(
                h.cells@,
                arr@[k],
                #[trigger] t[k],
                trust,
            ) by {
                if k < i - 1 {
                    assert(word_stands_for(before, words[k], t[k], trust));
                    assert(arr@[k] == words[k]);
                }
            }
        }
    }
    let ghost before = h.cells@;
    let ghost words = arr@;
    let w: i64 = h.leak_obj(Obj::Array(arr));
    proof {
        assert forall|k: int| 0 <= k < t.len() implies word_stands_for(
            h.cells@,
            words[k],
            #[trigger] t[k],
            trust,
        ) by {
            assert(word_stands_for(before, words[k], t[k], trust));
        }
    }
    w
}

/// `s.split(sep)`: a new array of the parts, which carry the trust of the text.
pub fn jrt_coll_str_split(h: &mut Heap, s: &TaggedStr, sep: &str) -> (w: i64)
    requires
        old(h).wf(),
        old(h).cells@.len() + parts_at(s.text@, sep@).len() + 1 <= MAX_CELLS,
    ensures
        final(h).wf(),
        final(h).rc_on == old(h).rc_on,
        new_text_array(
            old(h).cells@,
            final(h).cells@,
            w,
            parts_at(s.text@, sep@),
            s.trust,
        ),
{
    let parts = split(s.text.as_str(), sep);
    assert(texts(parts@).len() == parts@.len());
    text_array(h, parts.as_slice(), s.trust)
}

/// `fs.list_dir(path)`: a new array of the names, which are not to be trusted.
pub fn jrt_coll_fs_list_dir(h: &mut Heap, names: &[String]) -> (w: i64)
    requires
        old(h).wf(),
        old(h).cells@.len() + names@.len() + 1 <= MAX_CELLS,
    ensures
        final(h).wf(),
        final(h).rc_on == old(h).rc_on,
        new_text_array(old(h).cells@, final(h).cells@, w, texts(names@), TAINTED),
{
    text_array(h, names, TAINTED)
}

// ── Dicts ────────────────────────────────────────────────────────────────────

/// A new empty dict.
pub fn jrt_kdict_new(h: &mut Heap) -> (w: i64)
    requires
        old(h).wf(),
        old(h).cells@.len() < MAX_CELLS,
    ensures
        final(h).wf(),
        final(h).rc_on == old(h).rc_on,
        extends(old(h).cells@, final(h).cells@),
        final(h).cells@.len() == old(h).cells@.len() + 1,
        points_at(w) == old(h).cells@.len(),
        dict_at(final(h).cells@, w) matches Some(d) && d@ == Seq::<(Seq<char>, i64)>::empty()
            && d.header.fresh(ObjKind::Dict),
{
    h.leak_obj(Obj::Dict(DictObj::new()))
}

/// The text of a key word.
pub open spec fn key_text(cells: Seq<Cell>, w: i64) -> Seq<char> {
    match decode(w as u64) {
        Val::Str(a) => str_at(cells, a).0,
        _ => seq![],
    }
}

/// Set a key of a dict to a word, to which the dict takes a reference. The dict's header
/// holds the new length, and is otherwise the one it had.
pub fn jrt_kdict_set(h: &mut Heap, dict: i64, key_word: i64, val: i64)
    requires
        old(h).wf(),
        dict_at(old(h).cells@, dict) matches Some(d) && d@.len() < dict_max(),
        can_hold(old(h).cells@, val),
    ensures
        final(h).wf(),
        final(h).rc_on == old(h).rc_on,
        only_changes(held(old(h).cells@, old(h).rc_on, val), final(h).cells@, dict),
        dict_at(final(h).cells@, dict) matches Some(d) && d@ == put(
            dict_at(old(h).cells@, dict)->Some_0@,
            key_text(old(h).cells@, key_word),
            val,
        ) && d.header == dict_at(
            held(old(h).cells@, old(h).rc_on, val),
            dict,
        )->Some_0.header.with_len(d@.len() as u32),
{
    let key = copy_text(h, key_word);
    proof {
        held_keeps_objects(h.cells@, h.rc_on, val, dict);
    }
    h.retain(val);
    let ghost mid = h.cells@;
    let k: usize = cell_index(h, dict);
    assert(mid[k as int]->Obj_0.wf());
    match &mut h.cells[k] {
        Cell::Obj(Obj::Dict(d)) => {
            d.set(key.as_str(), val);
        },
        _ => {},
    }
    proof {
        let o = h.cells@[k as int]->Obj_0;
        edit_keeps_cells(mid, k as int, o);
        assert(h.cells@ =~= mid.update(k as int, Cell::Obj(o)));
    }
}

/// A copy of the text of a key word.
fn copy_text(h: &Heap, w: i64) -> (r: String)
    ensures
        r@ == key_text(h.cells@, w),
{
    let v = JadeValue::from_word(w);
    if v.is_str() {
        match string_at(h, v.as_ptr()) {
            Some(s) => s.text.clone(),
            None => String::new(),
        }
    } else {
        String::new()
    }
}

/// The word under a key of a dict.
pub fn jrt_coll_dict_get(h: &Heap, dict: i64, key: &str) -> (r: Option<i64>)
    requires
        h.wf(),
        dict_at(h.cells@, dict) is Some,
    ensures
        r == lookup(dict_at(h.cells@, dict)->Some_0@, key@),
{
    match h.object(dict) {
        Some(Obj::Dict(d)) => {
            assert(d.wf()) by {
                assert(h.cells@[points_at(dict)]->Obj_0.wf());
            }
            match d.get(key) {
                Some(w) => Some(*w),
                None => None,
            }
        },
        _ => None,
    }
}

/// The words of entries.
pub open spec fn words_of(s: Seq<(Seq<char>, i64)>) -> Seq<i64> {
    s.map_values(|e: (Seq<char>, i64)| e.1)
}

/// The cells once a new container has taken a reference to each of its words, which it
/// does while counting is on.
pub open spec fn all_held(cells: Seq<Cell>, on: bool, ws: Seq<i64>) -> Seq<Cell> {
    if on {
        retain_all(cells, ws, ws.len())
    } else {
        cells
    }
}

/// A new dict with these entries, to whose words it took references.
pub open spec fn new_dict(
    before: Seq<Cell>,
    after: Seq<Cell>,
    on: bool,
    w: i64,
    s: Seq<(Seq<char>, i64)>,
) -> bool {
    &&& after.len() == before.len() + 1
    &&& after.drop_last() == all_held(before, on, words_of(s))
    &&& points_at(w) == before.len()
    &&& dict_at(after, w) matches Some(d) && d@ == s && d.header.fresh(ObjKind::Dict)
}

/// Allocate a dict, taking references to its words.
fn leak_dict(h: &mut Heap, d: DictObj) -> (w: i64)
    requires
        old(h).wf(),
        old(h).cells@.len() < MAX_CELLS,
        d.wf(),
        d.header.fresh(ObjKind::Dict),
        counts_leave(old(h).cells@, d@.len() as int),
    ensures
        final(h).wf(),
        final(h).rc_on == old(h).rc_on,
        new_dict(old(h).cells@, final(h).cells@, old(h).rc_on, w, d@),
{
    let ghost s = d@;
    if h.rc_active() {
        let ws = d.values();
        h.incref_all(ws.as_slice());
    }
    let ghost mid = h.cells@;
    let w: i64 = h.leak_obj(Obj::Dict(d));
    assert(h.cells@.drop_last() =~= mid);
    w
}

/// A copy of a dict: its own header, the same words.
pub fn jrt_coll_dict_copy(h: &mut Heap, dict: i64) -> (w: i64)
    requires
        old(h).wf(),
        old(h).cells@.len() < MAX_CELLS,
        dict_at(old(h).cells@, dict) matches Some(d) && counts_leave(
            old(h).cells@,
            d@.len() as int,
        ),
    ensures
        final(h).wf(),
        final(h).rc_on == old(h).rc_on,
        new_dict(
            old(h).cells@,
            final(h).cells@,
            old(h).rc_on,
            w,
            dict_at(old(h).cells@, dict)->Some_0@,
        ),
{
    let copy = dict_copy(h, dict);
    leak_dict(h, copy)
}

/// A copy of a dict that is not on the heap yet.
fn dict_copy(h: &Heap, dict: i64) -> (d: DictObj)
    requires
        h.wf(),
        dict_at(h.cells@, dict) is Some,
    ensures
        d.wf(),
        d.header.fresh(ObjKind::Dict),
        d@ == dict_at(h.cells@, dict)->Some_0@,
{
    match h.object(dict) {
        Some(Obj::Dict(d)) => {
            assert(d.wf()) by {
                assert(h.cells@[points_at(dict)]->Obj_0.wf());
            }
            d.value_copy()
        },
        _ => DictObj::new(),
    }
}

/// The entries of `a` overlaid with the first `n` of `b`.
pub open spec fn merged(
    a: Seq<(Seq<char>, i64)>,
    b: Seq<(Seq<char>, i64)>,
    n: nat,
) -> Seq<(Seq<char>, i64)>
    decreases n,
{
    if n == 0 {
        a
    } else {
        put(merged(a, b, (n - 1) as nat), b[n - 1].0, b[n - 1].1)
    }
}

/// Overlaying adds at most one entry each.
proof fn merged_len(a: Seq<(Seq<char>, i64)>, b: Seq<(Seq<char>, i64)>, n: nat)
    ensures
        merged(a, b, n).len() <= a.len() + n,
    decreases n,
{
    if n > 0 {
        merged_len(a, b, (n - 1) as nat);
    }
}

/// `dict.merge(a, b)`: a new dict with the entries of both; those of `b` win.
pub fn jrt_coll_dict_merge(h: &mut Heap, a: i64, b: i64) -> (w: i64)
    requires
        old(h).wf(),
        old(h).cells@.len() < MAX_CELLS,
        dict_at(old(h).cells@, a) is Some,
        dict_at(old(h).cells@, b) is Some,
        dict_at(old(h).cells@, a)->Some_0@.len() + dict_at(old(h).cells@, b)->Some_0@.len()
            < dict_max(),
        counts_leave(
            old(h).cells@,
            (dict_at(old(h).cells@, a)->Some_0@.len() + dict_at(
                old(h).cells@,
                b,
            )->Some_0@.len()) as int,
        ),
    ensures
        final(h).wf(),
        final(h).rc_on == old(h).rc_on,
        ({
            let y = dict_at(old(h).cells@, b)->Some_0@;
            new_dict(
                old(h).cells@,
                final(h).cells@,
                old(h).rc_on,
                w,
                merged(dict_at(old(h).cells@, a)->Some_0@, y, y.len()),
            )
        }),
{
    let mut out = dict_copy(h, a);
    let ghost x = out@;
    let ghost y = dict_at(h.cells@, b)->Some_0@;
    match h.object(b) {
        Some(Obj::Dict(d)) => {
            let es = d.entries();
            let mut i: usize = 0;
            assert(entry_views(es@).len() == es@.len());
            while i < es.len()
                invariant
                    i <= es@.len(),
                    es@.len() == y.len(),
                    entry_views(es@) == y,
                    out.wf(),
                    out.header.fresh(ObjKind::Dict),
                    out@ == merged(x, y, i as nat),
                    x.len() + y.len() < dict_max(),
                decreases es@.len() - i,
            {
                proof {
                    merged_len(x, y, i as nat);
                    assert(entry_views(es@)[i as int] == (es@[i as int].0@, es@[i as int].1));
                }
                out.set(es[i].0.as_str(), es[i].1);
                i += 1;
            }
        },
        _ => {},
    }
    proof {
        merged_len(x, y, y.len());
    }
    leak_dict(h, out)
}

/// The entries of a dict, by key.
fn sorted_entries(d: &DictObj) -> (r: Vec<(String, i64)>)
    ensures
        keyed(r@) == by_key(d@),
{
    let es = d.entries();
    let mut v: Vec<(String, i64)> = Vec::new();
    let mut i: usize = 0;
    while i < es.len()
        invariant
            i <= es@.len(),
            v@.len() == i,
            entry_views(es@) == d@,
            forall|k: int| 0 <= k < i ==> ((#[trigger] v@[k]).0@, v@[k].1) == d@[k],
        decreases es@.len() - i,
    {
        assert(entry_views(es@)[i as int] == (es@[i as int].0@, es@[i as int].1));
        v.push((es[i].0.clone(), es[i].1));
        i += 1;
    }
    assert(entry_views(es@).len() == es@.len());
    assert(keyed(v@) =~= d@);
    sort_by_key(v)
}

/// The keys of entries.
pub open spec fn keys_of(s: Seq<(Seq<char>, i64)>) -> Seq<Seq<char>> {
    s.map_values(|e: (Seq<char>, i64)| e.0)
}

/// `dict.keys()`: a new array of the keys, ascending.
pub fn jrt_coll_dict_keys(h: &mut Heap, dict: i64) -> (w: i64)
    requires
        old(h).wf(),
        dict_at(old(h).cells@, dict) matches Some(d) && old(h).cells@.len() + d@.len() + 1
            <= MAX_CELLS,
    ensures
        final(h).wf(),
        final(h).rc_on == old(h).rc_on,
        new_text_array(
            old(h).cells@,
            final(h).cells@,
            w,
            keys_of(by_key(dict_at(old(h).cells@, dict)->Some_0@)),
            TRUSTED,
        ),
{
    let ghost s = dict_at(h.cells@, dict)->Some_0@;
    let mut keys: Vec<String> = Vec::new();
    match h.object(dict) {
        Some(Obj::Dict(d)) => {
            let v = sorted_entries(d);
            let mut i: usize = 0;
            while i < v.len()
                invariant
                    i <= v@.len(),
                    keyed(v@) == by_key(s),
                    keys@.len() == i,
                    forall|k: int| 0 <= k < i ==> (#[trigger] keys@[k])@ == by_key(s)[k].0,
                decreases v@.len() - i,
            {
                assert(keyed(v@)[i as int].0 == v@[i as int].0@);
                keys.push(v[i].0.clone());
                i += 1;
            }
            assert(keyed(v@).len() == v@.len());
        },
        _ => {},
    }
    proof {
        sorting_sorts(s);
        assert(texts(keys@) =~= keys_of(by_key(s)));
    }
    text_array(h, keys.as_slice(), TRUSTED)
}

/// A new array of these words, to which it took references.
pub open spec fn new_array(
    before: Seq<Cell>,
    after: Seq<Cell>,
    on: bool,
    w: i64,
    s: Seq<i64>,
) -> bool {
    &&& after.len() == before.len() + 1
    &&& after.drop_last() == all_held(before, on, s)
    &&& points_at(w) == before.len()
    &&& array_at(after, w) matches Some(a) && a@ == s && new_header(a)
}

/// `dict.values()`: a new array of the values, in the order of their keys.
pub fn jrt_coll_dict_values(h: &mut Heap, dict: i64) -> (w: i64)
    requires
        old(h).wf(),
        old(h).cells@.len() < MAX_CELLS,
        dict_at(old(h).cells@, dict) matches Some(d) && counts_leave(
            old(h).cells@,
            d@.len() as int,
        ),
    ensures
        final(h).wf(),
        final(h).rc_on == old(h).rc_on,
        new_array(
            old(h).cells@,
            final(h).cells@,
            old(h).rc_on,
            w,
            words_of(by_key(dict_at(old(h).cells@, dict)->Some_0@)),
        ),
{
    let ghost s = dict_at(h.cells@, dict)->Some_0@;
    let mut ws: Vec<i64> = Vec::new();
    match h.object(dict) {
        Some(Obj::Dict(d)) => {
            let v = sorted_entries(d);
            let mut i: usize = 0;
            while i < v.len()
                invariant
                    i <= v@.len(),
                    keyed(v@) == by_key(s),
                    ws@.len() == i,
                    forall|k: int| 0 <= k < i ==> #[trigger] ws@[k] == by_key(s)[k].1,
                decreases v@.len() - i,
            {
                assert(keyed(v@)[i as int].1 == v@[i as int].1);
                ws.push(v[i].1);
                i += 1;
            }
            assert(keyed(v@).len() == v@.len());
        },
        _ => {},
    }
    proof {
        sorting_sorts(s);
        assert(ws@ =~= words_of(by_key(s)));
    }
    if h.rc_active() {
        h.incref_all(ws.as_slice());
    }
    let ghost mid = h.cells@;
    let w: i64 = h.leak_obj(Obj::Array(ArrayObj::from_vec(ws.as_slice())));
    assert(h.cells@.drop_last() =~= mid);
    w
}

// ── Structs ──────────────────────────────────────────────────────────────────

/// A new struct of a type, without fields.
pub fn jrt_kstruct_new(h: &mut Heap, owner: &str) -> (w: i64)
    requires
        old(h).wf(),
        old(h).cells@.len() < MAX_CELLS,
    ensures
        final(h).wf(),
        final(h).rc_on == old(h).rc_on,
        extends(old(h).cells@, final(h).cells@),
        final(h).cells@.len() == old(h).cells@.len() + 1,
        points_at(w) == old(h).cells@.len(),
        struct_at(final(h).cells@, w) matches Some(s) && s@ == Seq::<(Seq<char>, i64)>::empty()
            && s.struct_name@ == owner@ && s.header.fresh(ObjKind::Struct),
{
    h.leak_obj(Obj::Struct(StructObj::new(owner)))
}

/// Set a field of a struct to a word, to which the struct takes a reference. The struct's
/// header holds the new length, and is otherwise the one it had.
pub fn jrt_kstruct_set(h: &mut Heap, st: i64, field: &str, val: i64)
    requires
        old(h).wf(),
        struct_at(old(h).cells@, st) is Some,
        can_hold(old(h).cells@, val),
    ensures
        final(h).wf(),
        final(h).rc_on == old(h).rc_on,
        only_changes(held(old(h).cells@, old(h).rc_on, val), final(h).cells@, st),
        struct_at(final(h).cells@, st) matches Some(s) && s@ == put(
            struct_at(old(h).cells@, st)->Some_0@,
            field@,
            val,
        ) && s.struct_name == struct_at(old(h).cells@, st)->Some_0.struct_name && s.header
            == struct_at(held(old(h).cells@, old(h).rc_on, val), st)->Some_0.header.with_len(
            s@.len() as u32,
        ),
{
    proof {
        held_keeps_objects(h.cells@, h.rc_on, val, st);
    }
    h.retain(val);
    let ghost mid = h.cells@;
    let k: usize = cell_index(h, st);
    assert(mid[k as int]->Obj_0.wf());
    match &mut h.cells[k] {
        Cell::Obj(Obj::Struct(s)) => {
            s.set_field(field, val);
        },
        _ => {},
    }
    proof {
        let o = h.cells@[k as int]->Obj_0;
        edit_keeps_cells(mid, k as int, o);
        assert(h.cells@ =~= mid.update(k as int, Cell::Obj(o)));
    }
}

/// A new array of the field names of a struct, in declaration order.
pub fn jrt_coll_struct_keys(h: &mut Heap, st: i64) -> (w: i64)
    requires
        old(h).wf(),
        struct_at(old(h).cells@, st) matches Some(s) && old(h).cells@.len() + s@.len() + 1
            <= MAX_CELLS,
    ensures
        final(h).wf(),
        final(h).rc_on == old(h).rc_on,
        new_text_array(
            old(h).cells@,
            final(h).cells@,
            w,
            keys_of(struct_at(old(h).cells@, st)->Some_0@),
            TRUSTED,
        ),
{
    let ghost s = struct_at(h.cells@, st)->Some_0@;
    let mut keys: Vec<String> = Vec::new();
    match h.object(st) {
        Some(Obj::Struct(x)) => {
            let es = x.fields();
            let mut i: usize = 0;
            while i < es.len()
                invariant
                    i <= es@.len(),
                    entry_views(es@) == s,
                    keys@.len() == i,
                    forall|k: int| 0 <= k < i ==> (#[trigger] keys@[k])@ == s[k].0,
                decreases es@.len() - i,
            {
                assert(entry_views(es@)[i as int].0 == es@[i as int].0@);
                keys.push(es[i].0.clone());
                i += 1;
            }
            assert(entry_views(es@).len() == es@.len());
        },
        _ => {},
    }
    assert(texts(keys@) =~= keys_of(s));
    text_array(h, keys.as_slice(), TRUSTED)
}

/// The word of a field of a struct.
pub fn jrt_coll_struct_get(h: &Heap, st: i64, field: &str) -> (r: Option<i64>)
    requires
        h.wf(),
        struct_at(h.cells@, st) is Some,
    ensures
        r == lookup(struct_at(h.cells@, st)->Some_0@, field@),
{
    match h.object(st) {
        Some(Obj::Struct(s)) => {
            assert(s.wf()) by {
                assert(h.cells@[points_at(st)]->Obj_0.wf());
            }
            match s.get_field(field) {
                Some(w) => Some(*w),
                None => None,
            }
        },
        _ => None,
    }
}

/// The name of the struct type of a word, as a trusted text; empty for any other word.
pub fn jrt_get_type_name(h: &Heap, w: i64) -> (r: TaggedStr)
    ensures
        emits(
            r,
            match struct_at(h.cells@, w) {
                Some(s) => s.struct_name@,
                None => seq![],
            },
            TRUSTED,
        ),
{
    match h.object(w) {
        Some(Obj::Struct(s)) => TaggedStr::dup(s.struct_name.as_str(), TRUSTED),
        _ => {
            assert(""@ =~= Seq::<char>::empty()) by {
                reveal_strlit("");
            }
            TaggedStr::dup("", TRUSTED)
        },
    }
}

// ── Shell output ─────────────────────────────────────────────────────────────

/// What the dict of a command shows: the two texts and the code.
pub open spec fn shown_output(output: Option<(String, String, i64)>) -> (
    Seq<char>,
    Seq<char>,
    int,
) {
    match output {
        Some((a, b, c)) => (a@, b@, c as int),
        None => (Seq::<char>::empty(), Seq::<char>::empty(), -1int),
    }
}

/// `sh.output(cmd)`: a new dict of what a command wrote and how it ended. What it wrote
/// is not to be trusted. A command that could not be run wrote nothing and ended
/// with -1.
pub fn jrt_coll_sh_output(h: &mut Heap, output: Option<(String, String, i64)>) -> (w: i64)
    requires
        old(h).wf(),
        old(h).cells@.len() + 3 <= MAX_CELLS,
    ensures
        final(h).wf(),
        final(h).rc_on == old(h).rc_on,
        extends(old(h).cells@, final(h).cells@),
        fresh_from(final(h).cells@, old(h).cells@.len() as int),
        final(h).cells@.len() == old(h).cells@.len() + 3,
        points_at(w) == final(h).cells@.len() - 1,
        ({
            let (so, se, code) = shown_output(output);
            dict_at(final(h).cells@, w) matches Some(d) && {
                &&& d@.len() == 3
                &&& text_cell(d@[0].1) == old(h).cells@.len()
                &&& text_cell(d@[1].1) == old(h).cells@.len() + 1
                &&& d@[0].0 == "stdout"@ && word_stands_for(
                    final(h).cells@,
                    d@[0].1,
                    so,
                    TAINTED,
                )
                &&& d@[1].0 == "stderr"@ && word_stands_for(
                    final(h).cells@,
                    d@[1].1,
                    se,
                    TAINTED,
                )
                &&& d@[2].0 == "code"@ && decode(d@[2].1 as u64) == Val::Int(wrap63(code))
            }
        }),
{
    let ghost shown = shown_output(output);
    let (so, se, code): (String, String, i64) = match output {
        Some(x) => x,
        None => (String::new(), String::new(), -1),
    };
    assert((so@, se@, code as int) == shown);
    let a: i64 = h.new_str(TaggedStr::new(so, TAINTED));
    let b: i64 = h.new_str(TaggedStr::new(se, TAINTED));
    let v = JadeValue::from_int(code);
    let c: i64 = v.word();
    proof {
        word_roundtrip(v.bits);
        reveal_strlit("stdout");
        reveal_strlit("stderr");
        reveal_strlit("code");
        assert("stdout"@[3] != "stderr"@[3]);
    }
    let mut d = DictObj::new();
    d.insert("stdout", a);
    assert(d@ =~= seq![("stdout"@, a)]);
    d.insert("stderr", b);
    assert(d@ =~= seq![("stdout"@, a), ("stderr"@, b)]) by {
        let s = seq![("stdout"@, a)];
        assert(!crate::coll::has_key(s, "stderr"@));
    }
    d.insert("code", c);
    assert(d@ =~= seq![("stdout"@, a), ("stderr"@, b), ("code"@, c)]) by {
        let s = seq![("stdout"@, a), ("stderr"@, b)];
        assert("code"@.len() != "stdout"@.len());
        assert("code"@.len() != "stderr"@.len());
        assert(!crate::coll::has_key(s, "code"@));
    }
    h.leak_obj(Obj::Dict(d))
}

// ── Laws ─────────────────────────────────────────────────────────────────────

/// Merging favours the second dict: a key of it reads as there, and any other key reads
/// as in the first.
pub proof fn merging_favours_the_second(
    a: Seq<(Seq<char>, i64)>,
    b: Seq<(Seq<char>, i64)>,
    n: nat,
    k: Seq<char>,
)
    requires
        unique_keys(a),
        unique_keys(b),
        n <= b.len(),
    ensures
        unique_keys(merged(a, b, n)),
        lookup(merged(a, b, n), k) == (match lookup(b.take(n as int), k) {
            Some(v) => Some(v),
            None => lookup(a, k),
        }),
    decreases n,
{
    if n > 0 {
        let m = merged(a, b, (n - 1) as nat);
        merging_favours_the_second(a, b, (n - 1) as nat, k);
        put_keeps_unique(m, b[n - 1].0, b[n - 1].1);
        crate::coll::lookup_after_put(m, b[n - 1].0, b[n - 1].1, k);
        let shorter = b.take(n - 1);
        let longer = b.take(n as int);
        assert(longer =~= shorter.push(b[n - 1]));
        assert(unique_keys(longer));
        assert(unique_keys(shorter));
        assert(!crate::coll::has_key(shorter, b[n - 1].0)) by {
            if crate::coll::has_key(shorter, b[n - 1].0) {
                let i = crate::coll::key_index(shorter, b[n - 1].0);
                assert(crate::coll::key_at(shorter, b[n - 1].0, i));
                assert(b[i].0 == b[n - 1].0);
            }
        }
        assert(longer == put(shorter, b[n - 1].0, b[n - 1].1));
        crate::coll::lookup_after_put(shorter, b[n - 1].0, b[n - 1].1, k);
    } else {
        assert(b.take(0) =~= seq![]);
        assert(!crate::coll::has_key(b.take(0), k));
    }
}

// ── What sorting gives ───────────────────────────────────────────────────────

/// A sorted array of integers ascends by value.
pub proof fn sorted_integers_ascend(cells: Seq<Cell>, s: Seq<i64>)
    requires
        forall|k: int| 0 <= k < s.len() ==> decode(#[trigger] s[k] as u64) is Int,
    ensures
        ({
            let t = sorted_words(cells, s);
            forall|i: int, j: int|
                0 <= i <= j < t.len() ==> (decode(#[trigger] t[i] as u64) matches Val::Int(x) && (
                decode(#[trigger] t[j] as u64) matches Val::Int(y) && x <= y))
        }),
{
    sorting_ascends(cells, s);
    let t = sorted_words(cells, s);
    assert forall|i: int, j: int| 0 <= i <= j < t.len() implies (decode(
        #[trigger] t[i] as u64,
    ) matches Val::Int(x) && (decode(#[trigger] t[j] as u64) matches Val::Int(y) && x <= y)) by {
        let a = sorted_from(cells, s, i);
        let b = sorted_from(cells, s, j);
        assert(order_of(cells, t[i], t[j]) <= 0);
    }
}

/// A sorted array of floats that are numbers ascends by value: neither of two neighbours
/// is out of order as patterns without a sign, with one, or one of each.
pub proof fn sorted_floats_ascend(cells: Seq<Cell>, s: Seq<i64>)
    requires
        forall|k: int|
            0 <= k < s.len() ==> (decode(#[trigger] s[k] as u64) matches Val::Float(a) && (float_at(
                cells,
                a,
            ) matches Some(b) && b % 0x8000_0000_0000_0000 <= 0x7ff0_0000_0000_0000)),
    ensures
        ({
            let t = sorted_words(cells, s);
            forall|i: int, j: int|
                0 <= i <= j < t.len() ==> {
                    let x = float_at(cells, decode(#[trigger] t[i] as u64)->Float_0)->Some_0;
                    let y = float_at(cells, decode(#[trigger] t[j] as u64)->Float_0)->Some_0;
                    &&& place(x) <= place(y)
                    &&& x < 0x8000_0000_0000_0000 && y < 0x8000_0000_0000_0000 ==> x <= y
                    &&& x > 0x8000_0000_0000_0000 && y > 0x8000_0000_0000_0000 ==> x >= y
                    &&& !(x < 0x8000_0000_0000_0000 && y > 0x8000_0000_0000_0000)
                }
        }),
{
    sorting_ascends(cells, s);
    let t = sorted_words(cells, s);
    assert forall|i: int, j: int| 0 <= i <= j < t.len() implies {
        let x = float_at(cells, decode(#[trigger] t[i] as u64)->Float_0)->Some_0;
        let y = float_at(cells, decode(#[trigger] t[j] as u64)->Float_0)->Some_0;
        &&& place(x) <= place(y)
        &&& x < 0x8000_0000_0000_0000 && y < 0x8000_0000_0000_0000 ==> x <= y
        &&& x > 0x8000_0000_0000_0000 && y > 0x8000_0000_0000_0000 ==> x >= y
        &&& !(x < 0x8000_0000_0000_0000 && y > 0x8000_0000_0000_0000)
    } by {
        let a = sorted_from(cells, s, i);
        let b = sorted_from(cells, s, j);
        assert(order_of(cells, t[i], t[j]) <= 0);
    }
}

/// A sorted array of texts ascends: none comes before one that stands in front of it.
pub proof fn sorted_texts_ascend(cells: Seq<Cell>, s: Seq<i64>)
    requires
        forall|k: int| 0 <= k < s.len() ==> decode(#[trigger] s[k] as u64) is Str,
    ensures
        ({
            let t = sorted_words(cells, s);
            forall|i: int, j: int|
                0 <= i <= j < t.len() ==> !lex_less(
                    str_at(cells, decode(#[trigger] t[j] as u64)->Str_0).0,
                    str_at(cells, decode(#[trigger] t[i] as u64)->Str_0).0,
                )
        }),
{
    sorting_ascends(cells, s);
    let t = sorted_words(cells, s);
    assert forall|i: int, j: int| 0 <= i <= j < t.len() implies !lex_less(
        str_at(cells, decode(#[trigger] t[j] as u64)->Str_0).0,
        str_at(cells, decode(#[trigger] t[i] as u64)->Str_0).0,
    ) by {
        let a = sorted_from(cells, s, i);
        let b = sorted_from(cells, s, j);
        assert(order_of(cells, t[i], t[j]) <= 0);
        let x = str_at(cells, decode(t[i] as u64)->Str_0).0;
        let y = str_at(cells, decode(t[j] as u64)->Str_0).0;
        if lex_less(x, y) && lex_less(y, x) {
            lex_transitive(x, y, x);
            lex_irreflexive(x);
        }
    }
}

/// A sorted array of bools has every `false` before every `true`.
pub proof fn sorted_bools_ascend(cells: Seq<Cell>, s: Seq<i64>)
    requires
        forall|k: int| 0 <= k < s.len() ==> decode(#[trigger] s[k] as u64) is Bool,
    ensures
        ({
            let t = sorted_words(cells, s);
            forall|i: int, j: int|
                0 <= i <= j < t.len() ==> !(decode(#[trigger] t[i] as u64) == Val::Bool(true)
                    && decode(#[trigger] t[j] as u64) == Val::Bool(false))
        }),
{
    sorting_ascends(cells, s);
    let t = sorted_words(cells, s);
    assert forall|i: int, j: int| 0 <= i <= j < t.len() implies !(decode(#[trigger] t[i] as u64)
        == Val::Bool(true) && decode(#[trigger] t[j] as u64) == Val::Bool(false)) by {
        assert(order_of(cells, t[i], t[j]) <= 0);
    }
}

/// A mixed pair of numbers is ordered as floats: the integer as the one it rounds to. Any
/// other mixed pair is left in the order it has.
pub proof fn mixed_pairs_order(cells: Seq<Cell>, a: i64, b: i64, c: u64)
    requires
        decode(a as u64) matches Val::Int(i) && is_float_of(i, c),
    ensures
        decode(b as u64) matches Val::Float(x) ==> (float_at(cells, x) matches Some(f) ==> {
            &&& order_of(cells, a, b) < 0 <==> comparable(c, f) && place(c) < place(f)
            &&& order_of(cells, a, b) > 0 <==> comparable(c, f) && place(c) > place(f)
            &&& order_of(cells, b, a) < 0 <==> comparable(c, f) && place(f) < place(c)
            &&& order_of(cells, b, a) > 0 <==> comparable(c, f) && place(f) > place(c)
        }),
        !(decode(b as u64) is Int) && !(decode(b as u64) is Float) ==> order_of(cells, a, b) == 0
            && order_of(cells, b, a) == 0,
{
    let i = decode(a as u64)->Int_0;
    let d = choose|d: u64| is_float_of(i, d);
    float_of_is_unique(i, c, d);
}

/// Every word of a sorted array is one of the array's.
proof fn sorted_from(cells: Seq<Cell>, s: Seq<i64>, i: int) -> (k: int)
    requires
        0 <= i < sorted_words(cells, s).len(),
    ensures
        0 <= k < s.len(),
        s[k] == sorted_words(cells, s)[i],
{
    broadcast use vstd::seq_lib::group_to_multiset_ensures;

    let t = sorted_words(cells, s);
    sorting_permutes(cells, s);
    assert(t.contains(t[i]));
    assert(t.to_multiset().count(t[i]) > 0);
    assert(s.contains(t[i]));
    s.index_of(t[i])
}

/// The keys and the words of entries are their first and second halves, in order.
pub proof fn entries_come_apart(s: Seq<(Seq<char>, i64)>, i: int)
    requires
        0 <= i < s.len(),
    ensures
        keys_of(s).len() == s.len(),
        words_of(s).len() == s.len(),
        keys_of(s)[i] == s[i].0,
        words_of(s)[i] == s[i].1,
{
}

/// A merged dict begins with the keys of the first, in their places; where the second has
/// none of them, its entries follow as they are.
pub proof fn merging_keeps_the_order(
    a: Seq<(Seq<char>, i64)>,
    b: Seq<(Seq<char>, i64)>,
    n: nat,
)
    requires
        unique_keys(a),
        unique_keys(b),
        n <= b.len(),
    ensures
        merged(a, b, n).len() >= a.len(),
        forall|i: int| 0 <= i < a.len() ==> (#[trigger] merged(a, b, n)[i]).0 == a[i].0,
        (forall|i: int, j: int|
            0 <= i < a.len() && 0 <= j < b.len() ==> (#[trigger] a[i]).0 != (#[trigger] b[j]).0)
            ==> merged(a, b, n) == a + b.take(n as int),
    decreases n,
{
    if n == 0 {
        assert(a + b.take(0) =~= a);
    } else {
        let m = (n - 1) as nat;
        merging_keeps_the_order(a, b, m);
        merging_favours_the_second(a, b, m, seq![]);
        let s = merged(a, b, m);
        let (k, v) = b[n - 1];
        if crate::coll::has_key(s, k) {
            let i = crate::coll::key_index(s, k);
            assert(crate::coll::key_at(s, k, i));
            if forall|i: int, j: int|
                0 <= i < a.len() && 0 <= j < b.len() ==> (#[trigger] a[i]).0 != (
                #[trigger] b[j]).0 {
                if i < a.len() {
                    assert(s[i].0 == a[i].0);
                } else {
                    assert(s[i] == b[i - a.len()]);
                    assert(b[i - a.len()].0 == b[n - 1].0);
                }
                assert(false);
            }
        } else {
            if forall|i: int, j: int|
                0 <= i < a.len() && 0 <= j < b.len() ==> (#[trigger] a[i]).0 != (
                #[trigger] b[j]).0 {
                assert(merged(a, b, n) =~= a + b.take(n as int));
            }
        }
    }
}

/// A new text goes behind what it is not below.
proof fn slot_at_the_end(cells: Seq<Cell>, s: Seq<i64>, w: i64)
    requires
        s.len() > 0 ==> order_of(cells, w, s.last()) >= 0,
    ensures
        word_slot(cells, s, w) == s.len(),
{
}

/// What is in order stays as it is, equals among it too.
pub proof fn sorting_leaves_the_sorted(cells: Seq<Cell>, s: Seq<i64>)
    requires
        forall|i: int|
            0 < i < s.len() ==> order_of(cells, #[trigger] s[i], s[i - 1]) >= 0,
    ensures
        sorted_words(cells, s) == s,
    decreases s.len(),
{
    if s.len() > 0 {
        let t = s.drop_last();
        assert forall|i: int| 0 < i < t.len() implies order_of(
            cells,
            #[trigger] t[i],
            t[i - 1],
        ) >= 0 by {
            assert(t[i] == s[i]);
            assert(t[i - 1] == s[i - 1]);
        }
        sorting_leaves_the_sorted(cells, t);
        if t.len() > 0 {
            let n = s.len() - 1;
            assert(order_of(cells, s[n], s[n - 1]) >= 0);
            assert(t.last() == s[n - 1]);
        }
        slot_at_the_end(cells, t, s.last());
        assert(t.insert(t.len() as int, s.last()) =~= s);
    } else {
        assert(sorted_words(cells, s) =~= s);
    }
}

/// The length of an array is the number of its elements, that of a text the number of its
/// characters, that of a character one, and a number, a bool and nil have none.
pub proof fn lengths_count_what_is_held(cells: Seq<Cell>, w: i64, a: ArrayObj)
    ensures
        decode(w as u64) is Ptr && array_at(cells, w) == Some(a) && a.synced() && a@.len()
            <= u32::MAX ==> length_of(cells, w) == a@.len(),
        decode(w as u64) matches Val::Str(x) ==> length_of(cells, w) == str_at(cells, x).0.len(),
        decode(w as u64) is Char ==> length_of(cells, w) == 1,
        decode(w as u64) is Int || decode(w as u64) is Bool || decode(w as u64) is Nil || decode(
            w as u64,
        ) is Float ==> length_of(cells, w) == 0,
{
}

/// What an object cell holds is found by the word that points at it, as what it is.
pub proof fn objects_are_found_by_kind(cells: Seq<Cell>, w: i64, o: Obj)
    requires
        0 <= points_at(w) < cells.len(),
        cells[points_at(w)] == Cell::Obj(o),
    ensures
        object_at(cells, w) == Some(o),
        o matches Obj::Array(a) ==> array_at(cells, w) == Some(a),
        o matches Obj::Dict(d) ==> dict_at(cells, w) == Some(d),
        o matches Obj::Struct(s) ==> struct_at(cells, w) == Some(s),
        !(o is Array) ==> array_at(cells, w) is None,
        !(o is Dict) ==> dict_at(cells, w) is None,
        !(o is Struct) ==> struct_at(cells, w) is None,
{
}

/// An array that becomes other elements holds exactly these, and no other cell changes.
pub proof fn changed_arrays_hold_the_elements(
    before: Seq<Cell>,
    after: Seq<Cell>,
    w: i64,
    s: Seq<i64>,
    i: int,
)
    requires
        array_becomes(before, after, w, s),
        0 <= points_at(w) < before.len(),
    ensures
        array_at(after, w) matches Some(a) && a@ == s,
        after.len() == before.len(),
        0 <= i < before.len() && i != points_at(w) ==> after[i] == before[i],
{
}

/// A new array holds the elements it was made of, and a new dict the entries.
pub proof fn new_collections_hold_what_was_given(
    before: Seq<Cell>,
    after: Seq<Cell>,
    w: i64,
    s: Seq<i64>,
    e: Seq<(Seq<char>, i64)>,
    t: Seq<Seq<char>>,
    trust: u8,
    on: bool,
)
    ensures
        new_array(before, after, on, w, s) ==> (array_at(after, w) matches Some(a) && a@ == s)
            && points_at(w) == before.len(),
        new_dict(before, after, on, w, e) ==> (dict_at(after, w) matches Some(d) && d@ == e)
            && points_at(w) == before.len(),
        new_text_array(before, after, w, t, trust) ==> (array_at(after, w) matches Some(a)
            && a@.len() == t.len() && forall|i: int|
            0 <= i < t.len() ==> key_text(after, #[trigger] a@[i]) == until_zero(t[i])),
{
    if new_text_array(before, after, w, t, trust) {
        let a = array_at(after, w)->Some_0;
        assert forall|i: int| 0 <= i < t.len() implies key_text(after, #[trigger] a@[i])
            == until_zero(t[i]) by {
            assert(word_stands_for(after, a@[i], t[i], trust));
        }
    }
}

/// Without counting, holding words changes nothing.
pub proof fn uncounted_words_change_nothing(cells: Seq<Cell>, w: i64, ws: Seq<i64>)
    ensures
        held(cells, false, w) == cells,
        all_held(cells, false, ws) == cells,
{
}

/// With counting, holding a word counts the object it points at once more, and changes
/// nothing else; a word that points at nothing counted changes nothing at all.
pub proof fn held_words_count_once(cells: Seq<Cell>, w: i64, i: int)
    requires
        can_hold(cells, w),
        0 <= i < cells.len(),
    ensures
        held(cells, true, w).len() == cells.len(),
        i != points_at(w) ==> held(cells, true, w)[i] == cells[i],
        i == points_at(w) && cells[i] is Obj && cells[i]->Obj_0.spec_counted() ==> {
            &&& held(cells, true, w)[i] is Obj
            &&& held(cells, true, w)[i]->Obj_0.hdr().rc == cells[i]->Obj_0.hdr().rc + 1
            &&& held(cells, true, w)[i]->Obj_0.kids() == cells[i]->Obj_0.kids()
        },
        !(cells[i] is Obj && cells[i]->Obj_0.spec_counted()) ==> held(cells, true, w)[i] == cells[i],
{
    if let Some(t) = target(cells, w) {
        crate::gc::counting_touches_the_count_alone(cells[t]->Obj_0);
    }
}

/// The output of a command is its two texts and its code; one that could not run has empty
/// texts and the code minus one.
pub proof fn commands_that_fail_to_run_say_nothing(a: String, b: String, c: i64)
    ensures
        shown_output(Some((a, b, c))) == (a@, b@, c as int),
        shown_output(None) == (Seq::<char>::empty(), Seq::<char>::empty(), -1int),
{
}

} // verus!
