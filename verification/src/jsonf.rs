//! JSON trees, and the value words they become.
//!
//! Parsing is `serde_json`'s. A parsed tree is held as a [`Json`], whose numbers are
//! integers where they fit and float bit patterns otherwise.

use vstd::prelude::*;

use crate::coll::{ArrayObj, DictObj};
use crate::floatbits::is_finite;
use crate::gc::Heap;
use crate::obj::{Cell, Obj};
use crate::ops::{string_at, unbox_float};
use crate::sort::sort_by_key;
use crate::string::TaggedStr;
#[allow(unused_imports)]
use crate::string::{no_zero, until_zero, zeros_end_a_text};
use crate::trust::TRUSTED;
use crate::value::JadeValue;
#[allow(unused_imports)]
use crate::coll::{dict_max, put, unique_keys};
#[allow(unused_imports)]
use crate::floatbits::spec_is_finite;
#[allow(unused_imports)]
use crate::gc::{cell_of, cells_wf, points_at, word_roundtrip, MAX_CELLS};
#[allow(unused_imports)]
use crate::ops::{float_at, str_at};
#[allow(unused_imports)]
use crate::sort::{by_key, distinct_keys_climb, keyed, keys_climb, slot_for, sorting_sorts};
#[allow(unused_imports)]
use crate::store::entry_views;
#[allow(unused_imports)]
use crate::text::{lex_irreflexive, lex_less, lex_transitive};
#[allow(unused_imports)]
use crate::value::{decode, ints_in_range_are_exact, wrap63, Val, INT_MAX, INT_MIN};
#[allow(unused_imports)]
use crate::gc::fresh_from;
#[allow(unused_imports)]
use crate::heap::ObjKind;

verus! {

/// A JSON value.
pub enum Json {
    /// `null`
    Null,
    /// `true` or `false`
    Bool(bool),
    /// A number that is a 64-bit integer.
    Int(i64),
    /// Any other number, by its float bit pattern.
    Float(u64),
    /// A string.
    Str(String),
    /// An array.
    Array(Vec<Json>),
    /// An object: keys and values.
    Object(Vec<(String, Json)>),
}

/// A JSON value, as mathematics.
pub enum JsonV {
    /// `null`
    Null,
    /// `true` or `false`
    Bool(bool),
    /// A number that is a 64-bit integer.
    Int(i64),
    /// Any other number, by its float bit pattern.
    Float(u64),
    /// A string.
    Str(Seq<char>),
    /// An array.
    Array(Seq<JsonV>),
    /// An object: keys and values.
    Object(Seq<(Seq<char>, JsonV)>),
}

/// What a JSON value is, as mathematics.
pub open spec fn json_view(j: Json) -> JsonV
    decreases j,
{
    match j {
        Json::Null => JsonV::Null,
        Json::Bool(b) => JsonV::Bool(b),
        Json::Int(i) => JsonV::Int(i),
        Json::Float(f) => JsonV::Float(f),
        Json::Str(s) => JsonV::Str(s@),
        Json::Array(v) => JsonV::Array(
            Seq::new(
                v@.len(),
                |i: int|
                    if 0 <= i < v@.len() {
                        json_view(v@[i])
                    } else {
                        JsonV::Null
                    },
            ),
        ),
        Json::Object(v) => JsonV::Object(
            Seq::new(
                v@.len(),
                |i: int|
                    if 0 <= i < v@.len() {
                        (v@[i].0@, json_view(v@[i].1))
                    } else {
                        (seq![], JsonV::Null)
                    },
            ),
        ),
    }
}

impl View for Json {
    type V = JsonV;

    open spec fn view(&self) -> JsonV {
        json_view(*self)
    }
}

// ── Parsing ──────────────────────────────────────────────────────────────────

/// `serde_json::Value`, opaque to the verifier.
#[verifier::external_type_specification]
#[verifier::external_body]
pub struct ExValue(serde_json::Value);

/// A JSON value as the parser gives it. Of a number it says what integer it is, if it is
/// one, and its float bit pattern, if it has one.
pub enum Doc {
    /// `null`
    Null,
    /// `true` or `false`
    Bool(bool),
    /// A number.
    Number(Option<i64>, Option<u64>),
    /// A string.
    Str(String),
    /// An array.
    Array(Vec<Doc>),
    /// An object: keys and values.
    Object(Vec<(String, Doc)>),
}

/// A JSON value as the parser gives it, as mathematics.
pub enum DocV {
    /// `null`
    Null,
    /// `true` or `false`
    Bool(bool),
    /// A number.
    Number(Option<i64>, Option<u64>),
    /// A string.
    Str(Seq<char>),
    /// An array.
    Array(Seq<DocV>),
    /// An object: keys and values.
    Object(Seq<(Seq<char>, DocV)>),
}

/// What a parsed value is, as mathematics.
pub open spec fn doc_view(d: Doc) -> DocV
    decreases d,
{
    match d {
        Doc::Null => DocV::Null,
        Doc::Bool(b) => DocV::Bool(b),
        Doc::Number(i, f) => DocV::Number(i, f),
        Doc::Str(s) => DocV::Str(s@),
        Doc::Array(v) => DocV::Array(
            Seq::new(
                v@.len(),
                |i: int|
                    if 0 <= i < v@.len() {
                        doc_view(v@[i])
                    } else {
                        DocV::Null
                    },
            ),
        ),
        Doc::Object(v) => DocV::Object(
            Seq::new(
                v@.len(),
                |i: int|
                    if 0 <= i < v@.len() {
                        (v@[i].0@, doc_view(v@[i].1))
                    } else {
                        (seq![], DocV::Null)
                    },
            ),
        ),
    }
}

impl View for Doc {
    type V = DocV;

    open spec fn view(&self) -> DocV {
        doc_view(*self)
    }
}

/// A `serde_json::Value` as a [`Doc`], part for part. Of a number it keeps what
/// `Number::as_i64` and `Number::as_f64` answer.
#[verifier::external_body]
fn doc(v: serde_json::Value) -> (d: Doc) {
    match v {
        serde_json::Value::Null => Doc::Null,
        serde_json::Value::Bool(b) => Doc::Bool(b),
        serde_json::Value::Number(n) => Doc::Number(n.as_i64(), n.as_f64().map(|f| f.to_bits())),
        serde_json::Value::String(s) => Doc::Str(s),
        serde_json::Value::Array(a) => Doc::Array(a.into_iter().map(doc).collect()),
        serde_json::Value::Object(m) => {
            Doc::Object(m.into_iter().map(|e| (e.0, doc(e.1))).collect())
        }
    }
}

/// What `serde_json::from_str` answers for a text: what it reads it as, or what it says
/// of a text that is not JSON.
pub uninterp spec fn parse_result(text: Seq<char>) -> Result<DocV, Seq<char>>;

/// `serde_json::from_str`: the value of a JSON text, or the parser's message. Both are
/// functions of the text alone; which texts are JSON is not stated.
#[verifier::external_body]
fn parse_doc(text: &str) -> (r: Result<Doc, String>)
    ensures
        match r {
            Ok(d) => parse_result(text@) == Ok::<DocV, Seq<char>>(d@),
            Err(e) => parse_result(text@) == Err::<DocV, Seq<char>>(e@),
        },
{
    match serde_json::from_str::<serde_json::Value>(text) {
        Ok(v) => Ok(doc(v)),
        Err(e) => Err(e.to_string()),
    }
}

/// The tree of a parsed value: a number that is an integer is one, and any other is its
/// float.
pub open spec fn tree_of(d: DocV) -> JsonV
    decreases d,
{
    match d {
        DocV::Null => JsonV::Null,
        DocV::Bool(b) => JsonV::Bool(b),
        DocV::Number(Some(i), _) => JsonV::Int(i),
        DocV::Number(None, Some(f)) => JsonV::Float(f),
        DocV::Number(None, None) => JsonV::Float(0),
        DocV::Str(s) => JsonV::Str(s),
        DocV::Array(v) => JsonV::Array(
            Seq::new(
                v.len(),
                |i: int|
                    if 0 <= i < v.len() {
                        tree_of(v[i])
                    } else {
                        JsonV::Null
                    },
            ),
        ),
        DocV::Object(v) => JsonV::Object(
            Seq::new(
                v.len(),
                |i: int|
                    if 0 <= i < v.len() {
                        (v[i].0, tree_of(v[i].1))
                    } else {
                        (seq![], JsonV::Null)
                    },
            ),
        ),
    }
}

/// The tree of an array is the trees of its elements.
proof fn array_tree(v: Vec<Doc>)
    ensures
        tree_of(Doc::Array(v)@) is Array,
        tree_of(Doc::Array(v)@)->Array_0.len() == v@.len(),
        forall|k: int|
            0 <= k < v@.len() ==> tree_of(Doc::Array(v)@)->Array_0[k] == tree_of(
                (#[trigger] v@[k])@,
            ),
{
    reveal_with_fuel(doc_view, 2);
    let s = Doc::Array(v)@->Array_0;
    assert(forall|k: int| 0 <= k < v@.len() ==> s[k] == (#[trigger] v@[k])@);
}

/// The tree of an object is the keys and the trees of its values.
proof fn object_tree(v: Vec<(String, Doc)>)
    ensures
        tree_of(Doc::Object(v)@) is Object,
        tree_of(Doc::Object(v)@)->Object_0.len() == v@.len(),
        forall|k: int|
            0 <= k < v@.len() ==> tree_of(Doc::Object(v)@)->Object_0[k] == (
                (#[trigger] v@[k]).0@,
                tree_of(v@[k].1@),
            ),
{
    reveal_with_fuel(doc_view, 2);
    let s = Doc::Object(v)@->Object_0;
    assert(forall|k: int| 0 <= k < v@.len() ==> s[k] == ((#[trigger] v@[k]).0@, v@[k].1@));
}

/// The tree of a parsed value.
pub fn tree(d: &Doc) -> (j: Json)
    ensures
        j@ == tree_of(d@),
    decreases d,
{
    match d {
        Doc::Null => Json::Null,
        Doc::Bool(b) => Json::Bool(*b),
        Doc::Number(Some(i), _) => Json::Int(*i),
        Doc::Number(None, Some(f)) => Json::Float(*f),
        Doc::Number(None, None) => Json::Float(0),
        Doc::Str(s) => Json::Str(s.clone()),
        Doc::Array(v) => {
            let mut out: Vec<Json> = Vec::new();
            let mut i: usize = 0;
            while i < v.len()
                invariant
                    i <= v@.len(),
                    d == Doc::Array(*v),
                    out@.len() == i,
                    forall|k: int| 0 <= k < i ==> (#[trigger] out@[k])@ == tree_of(v@[k]@),
                decreases v@.len() - i,
            {
                let e = &v[i];
                assert(decreases_to!(*d => d->Array_0));
                assert(decreases_to!(v => v@[i as int]));
                let j = tree(e);
                out.push(j);
                i += 1;
            }
            proof {
                array_view(out);
                array_tree(*v);
                assert(Json::Array(out)@->Array_0 =~= tree_of(d@)->Array_0);
            }
            Json::Array(out)
        },
        Doc::Object(v) => {
            let mut out: Vec<(String, Json)> = Vec::new();
            let mut i: usize = 0;
            while i < v.len()
                invariant
                    i <= v@.len(),
                    d == Doc::Object(*v),
                    out@.len() == i,
                    forall|k: int|
                        0 <= k < i ==> (#[trigger] out@[k]).0@ == v@[k].0@ && out@[k].1@
                            == tree_of(v@[k].1@),
                decreases v@.len() - i,
            {
                let e = &v[i];
                assert(decreases_to!(*d => d->Object_0));
                assert(decreases_to!(v => v@[i as int]));
                let j = tree(&e.1);
                out.push((e.0.clone(), j));
                i += 1;
            }
            proof {
                object_view(out);
                object_tree(*v);
                assert(Json::Object(out)@->Object_0 =~= tree_of(d@)->Object_0);
            }
            Json::Object(out)
        },
    }
}

/// What a text is read as; nothing when it is not JSON.
pub open spec fn parsed(text: Seq<char>) -> Option<JsonV> {
    match parse_result(text) {
        Ok(d) => Some(tree_of(d)),
        Err(_) => None,
    }
}

/// What is said of a text that is not JSON.
pub open spec fn parse_error(text: Seq<char>) -> Seq<char> {
    match parse_result(text) {
        Ok(_) => seq![],
        Err(e) => e,
    }
}

/// The tree of a JSON text, or the parser's message.
pub(crate) fn parse(text: &str) -> (r: Result<Json, String>)
    ensures
        match r {
            Ok(j) => parsed(text@) == Some(j@),
            Err(e) => parsed(text@) is None && e@ == parse_error(text@),
        },
{
    match parse_doc(text) {
        Ok(d) => Ok(tree(&d)),
        Err(e) => Err(e),
    }
}

// ── Trees to words ───────────────────────────────────────────────────────────

/// How many cells the values `v[..n]` take.
pub open spec fn cells_of_seq(v: Seq<JsonV>, n: nat) -> nat
    decreases v, n,
{
    if n == 0 || n > v.len() {
        0
    } else {
        cells_of_seq(v, (n - 1) as nat) + cells_for(v[n - 1])
    }
}

/// How many cells the members `v[..n]` take.
pub open spec fn cells_of_members(v: Seq<(Seq<char>, JsonV)>, n: nat) -> nat
    decreases v, n,
{
    if n == 0 || n > v.len() {
        0
    } else {
        cells_of_members(v, (n - 1) as nat) + cells_for(v[n - 1].1)
    }
}

/// How many cells a value takes.
pub open spec fn cells_for(j: JsonV) -> nat
    decreases j, 0nat,
{
    match j {
        JsonV::Array(v) => 1 + cells_of_seq(v, v.len()),
        JsonV::Object(v) => 1 + cells_of_members(v, v.len()),
        JsonV::Float(_) | JsonV::Str(_) => 1,
        _ => 0,
    }
}

/// No object in the value is too large for a dict.
pub open spec fn fits_dicts(j: JsonV) -> bool
    decreases j,
{
    match j {
        JsonV::Array(v) => forall|i: int| 0 <= i < v.len() ==> fits_dicts(#[trigger] v[i]),
        JsonV::Object(v) => v.len() < dict_max() && forall|i: int|
            0 <= i < v.len() ==> fits_dicts((#[trigger] v[i]).1),
        _ => true,
    }
}

/// The entries made by setting the first `n` members in turn to the words `ws`.
pub open spec fn put_all(v: Seq<(Seq<char>, JsonV)>, ws: Seq<i64>, n: nat) -> Seq<
    (Seq<char>, i64),
>
    decreases n,
{
    if n == 0 {
        seq![]
    } else {
        put(put_all(v, ws, (n - 1) as nat), v[n - 1].0, ws[n - 1])
    }
}

/// The word `w` stands for the JSON value `j`, its strings tagged `trust`, in cells of its
/// own from `from` on: each part has its cells behind those of the part before it, and an
/// array or dict has the one behind its parts. A string ends at its first zero character.
pub open spec fn represents(cells: Seq<Cell>, w: i64, j: JsonV, trust: u8, from: int) -> bool
    decreases j,
{
    match j {
        JsonV::Null => decode(w as u64) == Val::Nil,
        JsonV::Bool(b) => decode(w as u64) == Val::Bool(b),
        JsonV::Int(i) => decode(w as u64) == Val::Int(wrap63(i as int)),
        JsonV::Float(f) => decode(w as u64) matches Val::Float(a) && cell_of(a as int) == from
            && float_at(cells, a) == Some(f),
        JsonV::Str(s) => decode(w as u64) matches Val::Str(a) && cell_of(a as int) == from && 0
            <= from < cells.len() && cells[from] is Str && str_at(cells, a) == (
            until_zero(s),
            trust,
        ),
        JsonV::Array(v) => {
            let i = from + cells_of_seq(v, v.len());
            &&& points_at(w) == i
            &&& 0 <= i < cells.len()
            &&& cells[i] is Obj
            &&& cells[i]->Obj_0 matches Obj::Array(a)
            &&& a@.len() == v.len()
            &&& forall|k: int|
                0 <= k < v.len() ==> represents(
                    cells,
                    a@[k],
                    #[trigger] v[k],
                    trust,
                    from + cells_of_seq(v, k as nat),
                )
        },
        JsonV::Object(v) => {
            let i = from + cells_of_members(v, v.len());
            &&& points_at(w) == i
            &&& 0 <= i < cells.len()
            &&& cells[i] is Obj
            &&& cells[i]->Obj_0 matches Obj::Dict(d)
            &&& exists|ws: Seq<i64>|
                ws.len() == v.len() && d@ == #[trigger] put_all(v, ws, v.len()) && forall|k: int|
                    0 <= k < v.len() ==> represents(
                        cells,
                        ws[k],
                        (#[trigger] v[k]).1,
                        trust,
                        from + cells_of_members(v, k as nat),
                    )
        },
    }
}

/// `after` keeps every cell of `before`.
pub open spec fn extends(before: Seq<Cell>, after: Seq<Cell>) -> bool {
    before.len() <= after.len() && forall|i: int|
        0 <= i < before.len() ==> #[trigger] after[i] == before[i]
}

/// A word stands for what it stood for in any heap that keeps the cells.
pub proof fn represents_in_larger(
    before: Seq<Cell>,
    after: Seq<Cell>,
    w: i64,
    j: JsonV,
    trust: u8,
    from: int,
)
    requires
        represents(before, w, j, trust, from),
        extends(before, after),
    ensures
        represents(after, w, j, trust, from),
{
    assert(recounted(before, after));
    represents_recounted(before, after, w, j, trust, from);
}

/// `after` keeps every cell of `before` but for object headers.
pub open spec fn recounted(before: Seq<Cell>, after: Seq<Cell>) -> bool {
    before.len() <= after.len() && forall|i: int|
        0 <= i < before.len() ==> same_payload(before[i], #[trigger] after[i])
}

/// The same cell, but for the header of an object.
pub open spec fn same_payload(a: Cell, b: Cell) -> bool {
    a == b || (a is Obj && b is Obj && b->Obj_0 == a->Obj_0.with_hdr(b->Obj_0.hdr()))
}

/// A word stands for what it stood for whatever the headers say.
#[verifier::spinoff_prover]
#[verifier::rlimit(80)]
pub proof fn represents_recounted(
    before: Seq<Cell>,
    after: Seq<Cell>,
    w: i64,
    j: JsonV,
    trust: u8,
    from: int,
)
    requires
        represents(before, w, j, trust, from),
        recounted(before, after),
    ensures
        represents(after, w, j, trust, from),
    decreases j,
{
    match j {
        JsonV::Array(v) => {
            let i = points_at(w);
            assert(same_payload(before[i], after[i]));
            let a = before[i]->Obj_0->Array_0;
            let b = after[i]->Obj_0->Array_0;
            b.same_elements(&a);
            assert forall|k: int| 0 <= k < v.len() implies represents(
                after,
                b@[k],
                #[trigger] v[k],
                trust,
                from + cells_of_seq(v, k as nat),
            ) by {
                represents_recounted(
                    before,
                    after,
                    a@[k],
                    v[k],
                    trust,
                    from + cells_of_seq(v, k as nat),
                );
            }
        },
        JsonV::Object(v) => {
            let i = points_at(w);
            assert(same_payload(before[i], after[i]));
            let d = before[i]->Obj_0->Dict_0;
            let e = after[i]->Obj_0->Dict_0;
            d.same_slots(&e);
            let ws = choose|ws: Seq<i64>|
                ws.len() == v.len() && d@ == #[trigger] put_all(v, ws, v.len()) && forall|k: int|
                    0 <= k < v.len() ==> represents(
                        before,
                        ws[k],
                        (#[trigger] v[k]).1,
                        trust,
                        from + cells_of_members(v, k as nat),
                    );
            assert forall|k: int| 0 <= k < v.len() implies represents(
                after,
                ws[k],
                (#[trigger] v[k]).1,
                trust,
                from + cells_of_members(v, k as nat),
            ) by {
                represents_recounted(
                    before,
                    after,
                    ws[k],
                    v[k].1,
                    trust,
                    from + cells_of_members(v, k as nat),
                );
            }
            assert(e@ == put_all(v, ws, v.len()));
        },
        JsonV::Str(_) => {
            assert(same_payload(
                before[cell_of(decode(w as u64)->Str_0 as int)],
                after[cell_of(decode(w as u64)->Str_0 as int)],
            ));
        },
        JsonV::Float(_) => {
            assert(same_payload(
                before[cell_of(decode(w as u64)->Float_0 as int)],
                after[cell_of(decode(w as u64)->Float_0 as int)],
            ));
        },
        _ => {},
    }
}

/// The parts of an array take no more cells than the array.
proof fn cells_of_seq_grows(v: Seq<JsonV>, n: nat, m: nat)
    requires
        n <= m <= v.len(),
    ensures
        cells_of_seq(v, n) <= cells_of_seq(v, m),
    decreases m,
{
    if n < m {
        cells_of_seq_grows(v, n, (m - 1) as nat);
    }
}

/// The parts of an object take no more cells than the object.
proof fn cells_of_members_grows(v: Seq<(Seq<char>, JsonV)>, n: nat, m: nat)
    requires
        n <= m <= v.len(),
    ensures
        cells_of_members(v, n) <= cells_of_members(v, m),
    decreases m,
{
    if n < m {
        cells_of_members_grows(v, n, (m - 1) as nat);
    }
}

/// Setting members in turn makes no more entries than members, all under distinct keys.
proof fn put_all_bounded(v: Seq<(Seq<char>, JsonV)>, ws: Seq<i64>, n: nat)
    requires
        n <= v.len(),
        n <= ws.len(),
    ensures
        put_all(v, ws, n).len() <= n,
        unique_keys(put_all(v, ws, n)),
    decreases n,
{
    if n > 0 {
        put_all_bounded(v, ws, (n - 1) as nat);
        crate::coll::put_keeps_unique(put_all(v, ws, (n - 1) as nat), v[n - 1].0, ws[n - 1]);
    }
}

/// More words at the end change nothing of the earlier members.
proof fn put_all_prefix(v: Seq<(Seq<char>, JsonV)>, ws: Seq<i64>, w: i64, n: nat)
    requires
        n <= ws.len(),
    ensures
        put_all(v, ws.push(w), n) == put_all(v, ws, n),
    decreases n,
{
    if n > 0 {
        put_all_prefix(v, ws, w, (n - 1) as nat);
    }
}

/// The view of an array is the views of its elements.
pub proof fn array_view(v: Vec<Json>)
    ensures
        Json::Array(v)@ is Array,
        Json::Array(v)@->Array_0.len() == v@.len(),
        forall|k: int|
            0 <= k < v@.len() ==> Json::Array(v)@->Array_0[k] == (#[trigger] v@[k])@,
{
    reveal_with_fuel(json_view, 2);
}

/// The view of an object is the keys and the views of its values.
pub proof fn object_view(v: Vec<(String, Json)>)
    ensures
        Json::Object(v)@ is Object,
        Json::Object(v)@->Object_0.len() == v@.len(),
        forall|k: int|
            0 <= k < v@.len() ==> Json::Object(v)@->Object_0[k] == (
                (#[trigger] v@[k]).0@,
                v@[k].1@,
            ),
{
    reveal_with_fuel(json_view, 2);
}

/// What holds of an array's dicts holds of its elements'.
proof fn fits_element(v: Seq<JsonV>, i: int)
    requires
        fits_dicts(JsonV::Array(v)),
        0 <= i < v.len(),
    ensures
        fits_dicts(v[i]),
{
    let j = JsonV::Array(v);
    assert(j->Array_0 == v);
    assert(fits_dicts(j->Array_0[i]));
}

/// What holds of an object's dicts holds of its members'.
proof fn fits_member(v: Seq<(Seq<char>, JsonV)>, i: int)
    requires
        fits_dicts(JsonV::Object(v)),
        0 <= i < v.len(),
    ensures
        fits_dicts(v[i].1),
{
}

/// The first `n` words stand for the elements, one behind the other from cell `from` on.
#[verifier::opaque]
spec fn elements_at(
    cells: Seq<Cell>,
    ws: Seq<i64>,
    v: Seq<JsonV>,
    n: int,
    trust: u8,
    from: int,
) -> bool {
    forall|k: int|
        0 <= k < n ==> represents(
            cells,
            ws[k],
            #[trigger] v[k],
            trust,
            from + cells_of_seq(v, k as nat),
        )
}

/// The first `n` words stand for the members' values, one behind the other from cell
/// `from` on.
#[verifier::opaque]
spec fn members_at(
    cells: Seq<Cell>,
    ws: Seq<i64>,
    v: Seq<(Seq<char>, JsonV)>,
    n: int,
    trust: u8,
    from: int,
) -> bool {
    forall|k: int|
        0 <= k < n ==> represents(
            cells,
            ws[k],
            (#[trigger] v[k]).1,
            trust,
            from + cells_of_members(v, k as nat),
        )
}

/// One more element stands behind the others, in a heap that keeps the cells.
proof fn element_added(
    before: Seq<Cell>,
    after: Seq<Cell>,
    ws: Seq<i64>,
    w: i64,
    v: Seq<JsonV>,
    n: int,
    trust: u8,
    from: int,
)
    requires
        0 <= n < v.len(),
        ws.len() == n,
        elements_at(before, ws, v, n, trust, from),
        extends(before, after),
        represents(after, w, v[n], trust, from + cells_of_seq(v, n as nat)),
    ensures
        elements_at(after, ws.push(w), v, n + 1, trust, from),
{
    reveal(elements_at);
    elements_kept(before, after, ws, v, n, trust, from);
    let more = ws.push(w);
    assert forall|k: int| 0 <= k < n + 1 implies represents(
        after,
        more[k],
        #[trigger] v[k],
        trust,
        from + cells_of_seq(v, k as nat),
    ) by {
        if k < n {
            assert(more[k] == ws[k]);
        }
    }
}

/// Elements stand for what they did in a heap that keeps the cells.
proof fn elements_kept(
    before: Seq<Cell>,
    after: Seq<Cell>,
    ws: Seq<i64>,
    v: Seq<JsonV>,
    n: int,
    trust: u8,
    from: int,
)
    requires
        elements_at(before, ws, v, n, trust, from),
        extends(before, after),
    ensures
        elements_at(after, ws, v, n, trust, from),
{
    reveal(elements_at);
    assert forall|k: int| 0 <= k < n implies represents(
        after,
        ws[k],
        #[trigger] v[k],
        trust,
        from + cells_of_seq(v, k as nat),
    ) by {
        represents_in_larger(
            before,
            after,
            ws[k],
            v[k],
            trust,
            from + cells_of_seq(v, k as nat),
        );
    }
}

/// One more member stands behind the others, in a heap that keeps the cells.
proof fn member_added(
    before: Seq<Cell>,
    after: Seq<Cell>,
    ws: Seq<i64>,
    w: i64,
    v: Seq<(Seq<char>, JsonV)>,
    n: int,
    trust: u8,
    from: int,
)
    requires
        0 <= n < v.len(),
        ws.len() == n,
        members_at(before, ws, v, n, trust, from),
        extends(before, after),
        represents(after, w, v[n].1, trust, from + cells_of_members(v, n as nat)),
    ensures
        members_at(after, ws.push(w), v, n + 1, trust, from),
{
    reveal(members_at);
    members_kept(before, after, ws, v, n, trust, from);
    let more = ws.push(w);
    assert forall|k: int| 0 <= k < n + 1 implies represents(
        after,
        more[k],
        (#[trigger] v[k]).1,
        trust,
        from + cells_of_members(v, k as nat),
    ) by {
        if k < n {
            assert(more[k] == ws[k]);
        }
    }
}

/// Members stand for what they did in a heap that keeps the cells.
proof fn members_kept(
    before: Seq<Cell>,
    after: Seq<Cell>,
    ws: Seq<i64>,
    v: Seq<(Seq<char>, JsonV)>,
    n: int,
    trust: u8,
    from: int,
)
    requires
        members_at(before, ws, v, n, trust, from),
        extends(before, after),
    ensures
        members_at(after, ws, v, n, trust, from),
{
    reveal(members_at);
    assert forall|k: int| 0 <= k < n implies represents(
        after,
        ws[k],
        (#[trigger] v[k]).1,
        trust,
        from + cells_of_members(v, k as nat),
    ) by {
        represents_in_larger(
            before,
            after,
            ws[k],
            v[k].1,
            trust,
            from + cells_of_members(v, k as nat),
        );
    }
}

/// Build the value words of a JSON tree on the heap; its strings are tagged `trust`.
pub fn value_to_word(h: &mut Heap, j: &Json, trust: u8) -> (w: i64)
    requires
        old(h).wf(),
        old(h).cells@.len() + cells_for(j@) <= MAX_CELLS,
        fits_dicts(j@),
    ensures
        final(h).wf(),
        final(h).rc_on == old(h).rc_on,
        extends(old(h).cells@, final(h).cells@),
        fresh_from(final(h).cells@, old(h).cells@.len() as int),
        final(h).cells@.len() == old(h).cells@.len() + cells_for(j@),
        represents(final(h).cells@, w, j@, trust, old(h).cells@.len() as int),
    decreases j, 1nat,
{
    match j {
        Json::Null => {
            let v = JadeValue::nil();
            proof {
                word_roundtrip(v.bits);
            }
            v.word()
        },
        Json::Bool(b) => {
            let v = JadeValue::from_bool(*b);
            proof {
                word_roundtrip(v.bits);
            }
            v.word()
        },
        Json::Int(i) => {
            let v = JadeValue::from_int(*i);
            proof {
                word_roundtrip(v.bits);
            }
            v.word()
        },
        Json::Float(f) => h.box_float(*f),
        Json::Str(s) => h.new_str(TaggedStr::dup(s.as_str(), trust)),
        Json::Array(v) => array_to_word(h, j, v, trust),
        Json::Object(v) => object_to_word(h, j, v, trust),
    }
}

/// Build the words of an array, and the array of them.
#[verifier::spinoff_prover]
fn array_to_word(h: &mut Heap, j: &Json, v: &Vec<Json>, trust: u8) -> (w: i64)
    requires
        *j == Json::Array(*v),
        old(h).wf(),
        old(h).cells@.len() + cells_for(j@) <= MAX_CELLS,
        fits_dicts(j@),
    ensures
        final(h).wf(),
        final(h).rc_on == old(h).rc_on,
        extends(old(h).cells@, final(h).cells@),
        fresh_from(final(h).cells@, old(h).cells@.len() as int),
        final(h).cells@.len() == old(h).cells@.len() + cells_for(j@),
        represents(final(h).cells@, w, j@, trust, old(h).cells@.len() as int),
    decreases j, 0nat,
{
    proof {
        array_view(*v);
    }
    let ghost jv = j@->Array_0;
    let ghost start = h.cells@;
    let mut arr = ArrayObj::new();
    let mut i: usize = 0;
    proof {
        reveal(elements_at);
    }
    while i < v.len()
        invariant
            i <= v@.len(),
            j@ == JsonV::Array(jv),
            *j == Json::Array(*v),
            jv.len() == v@.len(),
            forall|k: int| 0 <= k < v@.len() ==> jv[k] == (#[trigger] v@[k])@,
            h.wf(),
            h.rc_on == old(h).rc_on,
            start == old(h).cells@,
            extends(start, h.cells@),
            fresh_from(h.cells@, start.len() as int),
            h.cells@.len() == start.len() + cells_of_seq(jv, i as nat),
            start.len() + 1 + cells_of_seq(jv, jv.len()) <= MAX_CELLS,
            fits_dicts(j@),
            arr.header.fresh(ObjKind::Array),
            arr.synced(),
            arr@.len() == i,
            elements_at(h.cells@, arr@, jv, i as int, trust, start.len() as int),
        decreases v@.len() - i,
    {
        proof {
            cells_of_seq_grows(jv, (i + 1) as nat, jv.len());
            assert(jv[i as int] == v@[i as int]@);
            fits_element(jv, i as int);
        }
        let ghost before = h.cells@;
        let ghost words = arr@;
        let w: i64 = value_to_word(h, &v[i], trust);
        arr.push(w);
        proof {
            element_added(
                before,
                h.cells@,
                words,
                w,
                jv,
                i as int,
                trust,
                start.len() as int,
            );
        }
        i += 1;
    }
    let ghost before = h.cells@;
    let ghost words = arr@;
    let w: i64 = h.leak_obj(Obj::Array(arr));
    proof {
        elements_kept(
            before,
            h.cells@,
            words,
            jv,
            i as int,
            trust,
            start.len() as int,
        );
        reveal(elements_at);
    }
    w
}

/// Build the words of an object's values, and the dict of them.
#[verifier::spinoff_prover]
fn object_to_word(h: &mut Heap, j: &Json, v: &Vec<(String, Json)>, trust: u8) -> (w: i64)
    requires
        *j == Json::Object(*v),
        old(h).wf(),
        old(h).cells@.len() + cells_for(j@) <= MAX_CELLS,
        fits_dicts(j@),
    ensures
        final(h).wf(),
        final(h).rc_on == old(h).rc_on,
        extends(old(h).cells@, final(h).cells@),
        fresh_from(final(h).cells@, old(h).cells@.len() as int),
        final(h).cells@.len() == old(h).cells@.len() + cells_for(j@),
        represents(final(h).cells@, w, j@, trust, old(h).cells@.len() as int),
    decreases j, 0nat,
{
    proof {
        object_view(*v);
    }
    let ghost jv = j@->Object_0;
    let ghost start = h.cells@;
    let ghost mut ws: Seq<i64> = seq![];
    let mut d = DictObj::new();
    let mut i: usize = 0;
    proof {
        reveal(members_at);
    }
    while i < v.len()
        invariant
            i <= v@.len(),
            j@ == JsonV::Object(jv),
            *j == Json::Object(*v),
            jv.len() == v@.len(),
            jv.len() < dict_max(),
            forall|k: int|
                0 <= k < v@.len() ==> jv[k] == ((#[trigger] v@[k]).0@, v@[k].1@),
            h.wf(),
            h.rc_on == old(h).rc_on,
            start == old(h).cells@,
            extends(start, h.cells@),
            fresh_from(h.cells@, start.len() as int),
            h.cells@.len() == start.len() + cells_of_members(jv, i as nat),
            start.len() + 1 + cells_of_members(jv, jv.len()) <= MAX_CELLS,
            fits_dicts(j@),
            d.header.fresh(ObjKind::Dict),
            d.wf(),
            ws.len() == i,
            d@ == put_all(jv, ws, i as nat),
            members_at(h.cells@, ws, jv, i as int, trust, start.len() as int),
        decreases v@.len() - i,
    {
        proof {
            cells_of_members_grows(jv, (i + 1) as nat, jv.len());
            assert(jv[i as int] == (v@[i as int].0@, v@[i as int].1@));
            put_all_bounded(jv, ws, i as nat);
            fits_member(jv, i as int);
        }
        let ghost before = h.cells@;
        let w: i64 = value_to_word(h, &v[i].1, trust);
        d.insert(v[i].0.as_str(), w);
        proof {
            put_all_prefix(jv, ws, w, i as nat);
            member_added(
                before,
                h.cells@,
                ws,
                w,
                jv,
                i as int,
                trust,
                start.len() as int,
            );
            ws = ws.push(w);
        }
        i += 1;
    }
    let ghost before = h.cells@;
    let ghost dv = d@;
    let w: i64 = h.leak_obj(Obj::Dict(d));
    proof {
        members_kept(
            before,
            h.cells@,
            ws,
            jv,
            i as int,
            trust,
            start.len() as int,
        );
        reveal(members_at);
        assert(dv == put_all(jv, ws, jv.len()));
    }
    w
}

/// How many cells a tree takes, when it is countable and no object is too large for a
/// dict.
pub(crate) fn measure(j: &Json) -> (r: Option<u64>)
    ensures
        match r {
            Some(n) => n == cells_for(j@) && fits_dicts(j@),
            None => cells_for(j@) > u64::MAX || !fits_dicts(j@),
        },
    decreases j,
{
    match j {
        Json::Array(v) => {
            proof {
                array_view(*v);
            }
            let ghost jv = j@->Array_0;
            let mut n: u64 = 1;
            let mut i: usize = 0;
            while i < v.len()
                invariant
                    i <= v@.len(),
                    *j == Json::Array(*v),
                    j@ == JsonV::Array(jv),
                    jv.len() == v@.len(),
                    forall|k: int| 0 <= k < v@.len() ==> jv[k] == (#[trigger] v@[k])@,
                    n == 1 + cells_of_seq(jv, i as nat),
                    forall|k: int| 0 <= k < i ==> fits_dicts(#[trigger] jv[k]),
                decreases v@.len() - i,
            {
                proof {
                    cells_of_seq_grows(jv, (i + 1) as nat, jv.len());
                    assert(jv[i as int] == v@[i as int]@);
                    if fits_dicts(j@) {
                        fits_element(jv, i as int);
                    }
                }
                match measure(&v[i]) {
                    Some(m) => match n.checked_add(m) {
                        Some(t) => {
                            n = t;
                        },
                        None => {
                            return None;
                        },
                    },
                    None => {
                        return None;
                    },
                }
                i += 1;
            }
            proof {
                all_fit_array(jv);
            }
            Some(n)
        },
        Json::Object(v) => {
            proof {
                object_view(*v);
            }
            let ghost jv = j@->Object_0;
            if v.len() >= 0xffff_fffe || v.len() >= usize::MAX / 4 {
                return None;
            }
            let mut n: u64 = 1;
            let mut i: usize = 0;
            while i < v.len()
                invariant
                    i <= v@.len(),
                    *j == Json::Object(*v),
                    j@ == JsonV::Object(jv),
                    jv.len() == v@.len(),
                    forall|k: int|
                        0 <= k < v@.len() ==> jv[k] == ((#[trigger] v@[k]).0@, v@[k].1@),
                    n == 1 + cells_of_members(jv, i as nat),
                    forall|k: int| 0 <= k < i ==> fits_dicts((#[trigger] jv[k]).1),
                decreases v@.len() - i,
            {
                proof {
                    cells_of_members_grows(jv, (i + 1) as nat, jv.len());
                    assert(jv[i as int] == (v@[i as int].0@, v@[i as int].1@));
                    if fits_dicts(j@) {
                        fits_member(jv, i as int);
                    }
                }
                match measure(&v[i].1) {
                    Some(m) => match n.checked_add(m) {
                        Some(t) => {
                            n = t;
                        },
                        None => {
                            return None;
                        },
                    },
                    None => {
                        return None;
                    },
                }
                i += 1;
            }
            Some(n)
        },
        Json::Float(_) | Json::Str(_) => Some(1),
        _ => Some(0),
    }
}

/// When every element fits, the array does.
proof fn all_fit_array(v: Seq<JsonV>)
    requires
        forall|k: int| 0 <= k < v.len() ==> fits_dicts(#[trigger] v[k]),
    ensures
        fits_dicts(JsonV::Array(v)),
{
    let j = JsonV::Array(v);
    assert(j->Array_0 == v);
}

/// `json.parse(s)`: the value of a JSON text, its strings tagged `trust`; nil for a
/// text that is not JSON. `None` when the heap has no room for it.
pub fn jrt_json_parse_chunk(h: &mut Heap, text: &str, trust: u8) -> (r: Option<i64>)
    requires
        old(h).wf(),
    ensures
        final(h).wf(),
        final(h).rc_on == old(h).rc_on,
        extends(old(h).cells@, final(h).cells@),
        match parsed(text@) {
            Some(j) => if old(h).cells@.len() + cells_for(j) <= MAX_CELLS && fits_dicts(j) {
                &&& r is Some && represents(
                    final(h).cells@,
                    r->Some_0,
                    j,
                    trust,
                    old(h).cells@.len() as int,
                )
                &&& final(h).cells@.len() == old(h).cells@.len() + cells_for(j)
                &&& fresh_from(final(h).cells@, old(h).cells@.len() as int)
            } else {
                r is None && final(h).cells@ == old(h).cells@
            },
            None => {
                &&& r is Some
                &&& decode(r->Some_0 as u64) == Val::Nil
                &&& final(h).cells@ == old(h).cells@
            },
        },
{
    let j = match parse(text) {
        Ok(j) => j,
        Err(_) => {
            let v = JadeValue::nil();
            proof {
                word_roundtrip(v.bits);
            }
            return Some(v.word());
        },
    };
    match measure(&j) {
        Some(n) => if n <= MAX_CELLS && h.cells.len() as u64 <= MAX_CELLS - n {
            Some(value_to_word(h, &j, trust))
        } else {
            None
        },
        None => None,
    }
}

// ── Words to trees ───────────────────────────────────────────────────────────

/// The containers reached from `w` nest no deeper than `d`.
pub open spec fn nests_within(cells: Seq<Cell>, w: i64, d: nat) -> bool
    decreases d,
{
    let i = points_at(w);
    if 0 <= i < cells.len() && cells[i] is Obj {
        match cells[i]->Obj_0 {
            Obj::Array(a) => d > 0 && forall|k: int|
                0 <= k < a@.len() ==> nests_within(cells, #[trigger] a@[k], (d - 1) as nat),
            Obj::Dict(e) => d > 0 && forall|k: int|
                0 <= k < e@.len() ==> nests_within(cells, (#[trigger] e@[k]).1, (d - 1) as nat),
            _ => true,
        }
    } else {
        true
    }
}

/// The words reached from `w` are free of cycles.
pub open spec fn acyclic(cells: Seq<Cell>, w: i64) -> bool {
    exists|d: nat| nests_within(cells, w, d)
}

/// Some depth at which the containers reached from `w` end.
pub open spec fn depth_of(cells: Seq<Cell>, w: i64) -> nat {
    choose|d: nat| nests_within(cells, w, d)
}

/// The JSON tree `j` is what the word `w` reads as: a value that is not JSON, such as a
/// float that is not finite, reads as null, and an object's members come in ascending order of key.
pub open spec fn reads_as(cells: Seq<Cell>, w: i64, j: JsonV) -> bool
    decreases j,
{
    match decode(w as u64) {
        Val::Int(i) => j == JsonV::Int(i as i64),
        Val::Bool(b) => j == JsonV::Bool(b),
        Val::Float(a) => match float_at(cells, a) {
            Some(f) => j == (if spec_is_finite(f) {
                JsonV::Float(f)
            } else {
                JsonV::Null
            }),
            None => j == JsonV::Null,
        },
        Val::Str(a) => j == JsonV::Str(str_at(cells, a).0),
        Val::Ptr(_) => {
            let i = points_at(w);
            if 0 <= i < cells.len() && cells[i] is Obj {
                match cells[i]->Obj_0 {
                    Obj::Array(a) => j matches JsonV::Array(v) && v.len() == a@.len() && forall|
                        k: int,
                    |
                        0 <= k < v.len() ==> reads_as(cells, a@[k], #[trigger] v[k]),
                    Obj::Dict(e) => j matches JsonV::Object(v) && v.len() == by_key(e@).len()
                        && forall|k: int|
                        0 <= k < v.len() ==> (#[trigger] v[k]).0 == by_key(e@)[k].0 && reads_as(
                            cells,
                            by_key(e@)[k].1,
                            v[k].1,
                        ),
                    _ => j == JsonV::Null,
                }
            } else {
                j == JsonV::Null
            }
        },
        _ => j == JsonV::Null,
    }
}

/// The values of a dict nest less deep than the dict.
pub proof fn dict_nests(cells: Seq<Cell>, w: i64, d: nat, e: DictObj, k: int)
    requires
        nests_within(cells, w, d),
        0 <= points_at(w) < cells.len(),
        cells[points_at(w)] == Cell::Obj(Obj::Dict(e)),
        0 <= k < e@.len(),
    ensures
        d > 0,
        nests_within(cells, e@[k].1, (d - 1) as nat),
{
    let f = cells[points_at(w)]->Obj_0->Dict_0;
    assert(f == e);
    assert(nests_within(cells, f@[k].1, (d - 1) as nat));
}

/// Read the words reached from `w`, which nest no deeper than `d`.
fn read_word(h: &Heap, w: i64, Ghost(d): Ghost<nat>) -> (j: Json)
    requires
        nests_within(h.cells@, w, d),
    ensures
        reads_as(h.cells@, w, j@),
    decreases d,
{
    let v = JadeValue::from_word(w);
    if v.is_int() {
        return Json::Int(v.as_int());
    }
    if v.is_bool() {
        return Json::Bool(v.as_bool());
    }
    if v.is_float() {
        return match unbox_float(h, v.as_ptr()) {
            Some(f) => if is_finite(f) {
                Json::Float(f)
            } else {
                Json::Null
            },
            None => Json::Null,
        };
    }
    if v.is_str() {
        return match string_at(h, v.as_ptr()) {
            Some(s) => Json::Str(s.text.clone()),
            None => Json::Str(String::new()),
        };
    }
    match h.object(w) {
        Some(Obj::Array(a)) => {
            let s = a.as_slice();
            let mut out: Vec<Json> = Vec::new();
            let mut i: usize = 0;
            while i < s.len()
                invariant
                    i <= s@.len(),
                    s@ == a@,
                    nests_within(h.cells@, w, d),
                    0 <= points_at(w) < h.cells@.len(),
                    h.cells@[points_at(w)] == Cell::Obj(Obj::Array(*a)),
                    out@.len() == i,
                    forall|k: int| 0 <= k < i ==> reads_as(h.cells@, a@[k], (#[trigger] out@[k])@),
                decreases s@.len() - i,
            {
                assert(nests_within(h.cells@, a@[i as int], (d - 1) as nat));
                out.push(read_word(h, s[i], Ghost((d - 1) as nat)));
                i += 1;
            }
            proof {
                array_view(out);
                let jv = Json::Array(out)@->Array_0;
                assert forall|k: int| 0 <= k < jv.len() implies reads_as(
                    h.cells@,
                    a@[k],
                    #[trigger] jv[k],
                ) by {
                    assert(jv[k] == out@[k]@);
                }
            }
            Json::Array(out)
        },
        Some(Obj::Dict(e)) => {
            let slots = e.entries();
            let mut copy: Vec<(String, i64)> = Vec::new();
            let mut i: usize = 0;
            while i < slots.len()
                invariant
                    i <= slots@.len(),
                    copy@.len() == i,
                    forall|k: int|
                        0 <= k < i ==> (#[trigger] copy@[k]).0@ == slots@[k].0@ && copy@[k].1
                            == slots@[k].1,
                decreases slots@.len() - i,
            {
                copy.push((slots[i].0.clone(), slots[i].1));
                i += 1;
            }
            assert(keyed(copy@) =~= entry_views(slots@));
            let sorted = sort_by_key(copy);
            proof {
                sorting_sorts(e@);
            }
            let mut out: Vec<(String, Json)> = Vec::new();
            let mut k: usize = 0;
            while k < sorted.len()
                invariant
                    k <= sorted@.len(),
                    keyed(sorted@) == by_key(e@),
                    by_key(e@).to_multiset() == e@.to_multiset(),
                    nests_within(h.cells@, w, d),
                    0 <= points_at(w) < h.cells@.len(),
                    h.cells@[points_at(w)] == Cell::Obj(Obj::Dict(*e)),
                    out@.len() == k,
                    forall|m: int|
                        0 <= m < k ==> (#[trigger] out@[m]).0@ == by_key(e@)[m].0 && reads_as(
                            h.cells@,
                            by_key(e@)[m].1,
                            out@[m].1@,
                        ),
                decreases sorted@.len() - k,
            {
                proof {
                    assert(keyed(sorted@)[k as int] == (sorted@[k as int].0@, sorted@[k as int].1));
                    member_of_sorted(e@, k as int);
                    let m = choose|m: int| 0 <= m < e@.len() && e@[m] == by_key(e@)[k as int];
                    assert(0 <= m < e@.len() && e@[m] == by_key(e@)[k as int]);
                    dict_nests(h.cells@, w, d, *e, m);
                }
                let j = read_word(h, sorted[k].1, Ghost((d - 1) as nat));
                out.push((sorted[k].0.clone(), j));
                k += 1;
            }
            proof {
                object_view(out);
                let jv = Json::Object(out)@->Object_0;
                assert(keyed(sorted@).len() == sorted@.len());
                assert forall|m: int| 0 <= m < jv.len() implies (#[trigger] jv[m]).0 == by_key(
                    e@,
                )[m].0 && reads_as(h.cells@, by_key(e@)[m].1, jv[m].1) by {
                    assert(jv[m] == (out@[m].0@, out@[m].1@));
                }
            }
            Json::Object(out)
        },
        _ => Json::Null,
    }
}

/// Every entry of the sorted entries is one of the entries.
pub proof fn member_of_sorted(s: Seq<(Seq<char>, i64)>, k: int)
    requires
        0 <= k < by_key(s).len(),
    ensures
        exists|m: int| 0 <= m < s.len() && s[m] == by_key(s)[k],
{
    sorting_sorts(s);
    let x = by_key(s)[k];
    vstd::seq_lib::to_multiset_contains(by_key(s), x);
    vstd::seq_lib::to_multiset_contains(s, x);
    assert(by_key(s).contains(x));
    assert(s.contains(x));
}

/// The JSON tree a word reads as. Reading has no end on a cycle.
pub fn word_to_value(h: &Heap, w: i64) -> (j: Json)
    requires
        acyclic(h.cells@, w),
    ensures
        reads_as(h.cells@, w, j@),
{
    let ghost d = depth_of(h.cells@, w);
    read_word(h, w, Ghost(d))
}

// ── Trees to text ────────────────────────────────────────────────────────────

/// The tree has no number but integers.
pub open spec fn float_free(j: JsonV) -> bool
    decreases j,
{
    match j {
        JsonV::Float(_) => false,
        JsonV::Array(v) => forall|i: int| 0 <= i < v.len() ==> float_free(#[trigger] v[i]),
        JsonV::Object(v) => forall|i: int| 0 <= i < v.len() ==> float_free((#[trigger] v[i]).1),
        _ => true,
    }
}

/// The arrays and objects of the tree nest no deeper than `d`.
pub open spec fn shallow(j: JsonV, d: nat) -> bool
    decreases d,
{
    match j {
        JsonV::Array(v) => d > 0 && forall|i: int|
            0 <= i < v.len() ==> shallow(#[trigger] v[i], (d - 1) as nat),
        JsonV::Object(v) => d > 0 && forall|i: int|
            0 <= i < v.len() ==> shallow((#[trigger] v[i]).1, (d - 1) as nat),
        _ => true,
    }
}

/// The deepest nesting `serde_json` reads.
pub const MAX_DEPTH: u8 = 127;

/// Words hold the tree exactly: its integers fit a word, its other numbers are finite,
/// its strings hold no zero character, and the keys of an object ascend.
pub open spec fn canonical(j: JsonV) -> bool
    decreases j,
{
    match j {
        JsonV::Int(i) => INT_MIN <= i <= INT_MAX,
        JsonV::Float(f) => spec_is_finite(f),
        JsonV::Str(s) => no_zero(s),
        JsonV::Array(v) => forall|i: int| 0 <= i < v.len() ==> canonical(#[trigger] v[i]),
        JsonV::Object(v) => {
            &&& keys_climb(v)
            &&& forall|i: int| 0 <= i < v.len() ==> canonical((#[trigger] v[i]).1)
        },
        _ => true,
    }
}

/// A float-free [`Json`] as a `serde_json::Value`, part for part.
#[verifier::external_body]
fn value(j: &Json) -> (v: serde_json::Value)
    requires
        float_free(j@),
{
    match j {
        Json::Null | Json::Float(_) => serde_json::Value::Null,
        Json::Bool(b) => serde_json::Value::Bool(*b),
        Json::Int(i) => serde_json::Value::Number((*i).into()),
        Json::Str(s) => serde_json::Value::String(s.clone()),
        Json::Array(a) => serde_json::Value::Array(a.iter().map(value).collect()),
        Json::Object(m) => serde_json::Value::Object(
            m.iter().map(|e| (e.0.clone(), value(&e.1))).collect(),
        ),
    }
}

/// What `serde_json::to_string` writes for a tree without floats.
pub uninterp spec fn compact(j: JsonV) -> Seq<char>;

/// What `serde_json::to_string_pretty` writes for a tree without floats.
pub uninterp spec fn pretty(j: JsonV) -> Seq<char>;

/// `serde_json::to_string` of a tree without floats. A zero character is escaped, so the
/// text holds none. `serde_json` reads the text back as that tree; this is claimed only of
/// a tree that words hold exactly and that does not nest too deep. How it is spelled is
/// not stated.
#[verifier::external_body]
fn write_compact(j: &Json) -> (s: String)
    requires
        float_free(j@),
    ensures
        s@ == compact(j@),
        no_zero(s@),
        canonical(j@) && shallow(j@, MAX_DEPTH as nat) ==> parsed(s@) == Some(j@),
{
    serde_json::to_string(&value(j)).expect("a tree can be written")
}

/// `serde_json::to_string_pretty` of a tree without floats. A zero character is escaped,
/// so the text holds none. `serde_json` reads the text back as that tree; this is claimed
/// only of a tree that words hold exactly and that does not nest too deep. How it is
/// spelled is not stated.
#[verifier::external_body]
fn write_pretty(j: &Json) -> (s: String)
    requires
        float_free(j@),
    ensures
        s@ == pretty(j@),
        no_zero(s@),
        canonical(j@) && shallow(j@, MAX_DEPTH as nat) ==> parsed(s@) == Some(j@),
{
    serde_json::to_string_pretty(&value(j)).expect("a tree can be written")
}

/// Whether a tree has no number but integers.
fn is_float_free(j: &Json) -> (r: bool)
    ensures
        r == float_free(j@),
    decreases j,
{
    match j {
        Json::Float(_) => false,
        Json::Array(v) => {
            proof {
                array_view(*v);
            }
            let mut i: usize = 0;
            while i < v.len()
                invariant
                    i <= v@.len(),
                    j == Json::Array(*v),
                    j@ is Array,
                    j@->Array_0.len() == v@.len(),
                    forall|k: int| 0 <= k < v@.len() ==> j@->Array_0[k] == (#[trigger] v@[k])@,
                    forall|k: int| 0 <= k < i ==> float_free(#[trigger] j@->Array_0[k]),
                decreases v@.len() - i,
            {
                assert(decreases_to!(v => v@[i as int]));
                if !is_float_free(&v[i]) {
                    assert(j@->Array_0[i as int] == v@[i as int]@);
                    return false;
                }
                assert(j@->Array_0[i as int] == v@[i as int]@);
                i += 1;
            }
            true
        },
        Json::Object(v) => {
            proof {
                object_view(*v);
            }
            let mut i: usize = 0;
            while i < v.len()
                invariant
                    i <= v@.len(),
                    j == Json::Object(*v),
                    j@ is Object,
                    j@->Object_0.len() == v@.len(),
                    forall|k: int|
                        0 <= k < v@.len() ==> j@->Object_0[k] == (
                            (#[trigger] v@[k]).0@,
                            v@[k].1@,
                        ),
                    forall|k: int| 0 <= k < i ==> float_free((#[trigger] j@->Object_0[k]).1),
                decreases v@.len() - i,
            {
                assert(decreases_to!(v => v@[i as int]));
                if !is_float_free(&v[i].1) {
                    assert(j@->Object_0[i as int].1 == v@[i as int].1@);
                    return false;
                }
                assert(j@->Object_0[i as int].1 == v@[i as int].1@);
                i += 1;
            }
            true
        },
        _ => true,
    }
}

/// The text of a tree without floats, on one line or spread out. Parsing it gives the
/// tree back.
pub fn write_tree(j: &Json, spread: bool) -> (r: Option<String>)
    ensures
        match r {
            Some(s) => {
                &&& float_free(j@)
                &&& s@ == (if spread {
                    pretty(j@)
                } else {
                    compact(j@)
                })
                &&& no_zero(s@)
                &&& canonical(j@) && shallow(j@, MAX_DEPTH as nat) ==> parsed(s@) == Some(j@)
            },
            None => !float_free(j@),
        },
{
    if !is_float_free(j) {
        return None;
    }
    if spread {
        Some(write_pretty(j))
    } else {
        Some(write_compact(j))
    }
}

/// The text is what is written for the value of a word, and parses back to what the word
/// reads as.
pub open spec fn writes(cells: Seq<Cell>, w: i64, spread: bool, text: Seq<char>, j: JsonV) -> bool {
    &&& reads_as(cells, w, j)
    &&& canonical(j)
    &&& float_free(j)
    &&& text == (if spread {
        pretty(j)
    } else {
        compact(j)
    })
    &&& shallow(j, MAX_DEPTH as nat) ==> parsed(text) == Some(j)
}

/// `json.stringify(v)` and `json.stringify_pretty(v)`: the JSON text of a value, as a
/// trusted string; nothing for a value that holds a float.
pub fn jrt_json_stringify_chunk(h: &Heap, w: i64, spread: bool) -> (r: Option<TaggedStr>)
    requires
        h.wf(),
        acyclic(h.cells@, w),
    ensures
        match r {
            Some(s) => s.wf() && s.trust == TRUSTED && s.rc == 1 && exists|j: JsonV| #[trigger]
                writes(h.cells@, w, spread, s.text@, j),
            None => exists|j: JsonV| #[trigger] reads_as(h.cells@, w, j) && !float_free(j),
        },
{
    let j = word_to_value(h, w);
    proof {
        reading_is_canonical(h.cells@, w, j@);
    }
    match write_tree(&j, spread) {
        Some(s) => {
            assert(writes(h.cells@, w, spread, s@, j@));
            proof {
                zeros_end_a_text(s@);
            }
            Some(TaggedStr::new(s, TRUSTED))
        },
        None => {
            assert(reads_as(h.cells@, w, j@));
            None
        },
    }
}

// ── Laws ─────────────────────────────────────────────────────────────────────

/// What a word reads as is a tree that words hold exactly.
pub proof fn reading_is_canonical(cells: Seq<Cell>, w: i64, j: JsonV)
    requires
        cells_wf(cells),
        reads_as(cells, w, j),
    ensures
        canonical(j),
    decreases j,
{
    match j {
        JsonV::Array(v) => {
            let a = cells[points_at(w)]->Obj_0->Array_0;
            assert forall|k: int| 0 <= k < v.len() implies canonical(#[trigger] v[k]) by {
                assert(reads_as(cells, a@[k], v[k]));
                reading_is_canonical(cells, a@[k], v[k]);
            }
        },
        JsonV::Object(v) => {
            let e = cells[points_at(w)]->Obj_0->Dict_0;
            assert(cells[points_at(w)]->Obj_0.wf());
            e.wf_entries();
            distinct_keys_climb(e@);
            assert forall|k: int| 0 <= k < v.len() implies canonical((#[trigger] v[k]).1) by {
                assert(reads_as(cells, by_key(e@)[k].1, v[k].1));
                reading_is_canonical(cells, by_key(e@)[k].1, v[k].1);
            }
            assert forall|i: int, k: int| 0 <= i < k < v.len() implies lex_less(
                (#[trigger] v[i]).0,
                (#[trigger] v[k]).0,
            ) by {
                assert(v[i].0 == by_key(e@)[i].0);
                assert(v[k].0 == by_key(e@)[k].0);
            }
        },
        JsonV::Str(_) => {
            let a = decode(w as u64)->Str_0;
            let i = cell_of(a as int);
            if 0 <= i < cells.len() && cells[i] is Str {
                assert(cells[i]->Str_0.wf());
            }
        },
        _ => {},
    }
}

/// Entries whose keys ascend are sorted already.
proof fn sorted_already(s: Seq<(Seq<char>, i64)>)
    requires
        keys_climb(s),
    ensures
        by_key(s) == s,
    decreases s.len(),
{
    if s.len() > 0 {
        let r = s.drop_last();
        assert forall|i: int, k: int| 0 <= i < k < r.len() implies lex_less(
            (#[trigger] r[i]).0,
            (#[trigger] r[k]).0,
        ) by {
            assert(lex_less(s[i].0, s[k].0));
        }
        sorted_already(r);
        let x = s.last();
        if r.len() > 0 {
            assert(lex_less(s[r.len() - 1].0, s[s.len() - 1].0));
            if lex_less(x.0, r.last().0) {
                lex_transitive(x.0, r.last().0, x.0);
                lex_irreflexive(x.0);
            }
        }
        assert(slot_for(r, x.0) == r.len());
        assert(r.insert(r.len() as int, x) =~= s);
    } else {
        assert(by_key(s) =~= s);
    }
}

/// Setting members whose keys ascend keeps them all, in order.
proof fn putting_ascending(v: Seq<(Seq<char>, JsonV)>, ws: Seq<i64>, n: nat)
    requires
        keys_climb(v),
        n <= v.len(),
        ws.len() == v.len(),
    ensures
        put_all(v, ws, n) == Seq::new(n, |k: int| (v[k].0, ws[k])),
    decreases n,
{
    let all = Seq::new(n, |k: int| (v[k].0, ws[k]));
    if n > 0 {
        let m = (n - 1) as nat;
        putting_ascending(v, ws, m);
        let before = put_all(v, ws, m);
        assert(!crate::coll::has_key(before, v[n - 1].0)) by {
            if crate::coll::has_key(before, v[n - 1].0) {
                let i = crate::coll::key_index(before, v[n - 1].0);
                assert(crate::coll::key_at(before, v[n - 1].0, i));
                assert(lex_less(v[i].0, v[n - 1].0));
                lex_irreflexive(v[i].0);
            }
        }
        assert(put_all(v, ws, n) =~= all);
    } else {
        assert(put_all(v, ws, n) =~= all);
    }
}

/// The entries of members with ascending names are sorted as they stand.
proof fn entries_stay_ascending(
    v: Seq<(Seq<char>, JsonV)>,
    ws: Seq<i64>,
    d: Seq<(Seq<char>, i64)>,
)
    requires
        keys_climb(v),
        ws.len() == v.len(),
        d == put_all(v, ws, v.len()),
    ensures
        by_key(d).len() == v.len(),
        forall|k: int| 0 <= k < v.len() ==> #[trigger] by_key(d)[k] == (v[k].0, ws[k]),
{
    putting_ascending(v, ws, v.len());
    assert forall|i: int, k: int| 0 <= i < k < d.len() implies lex_less(
        (#[trigger] d[i]).0,
        (#[trigger] d[k]).0,
    ) by {
        assert(lex_less(v[i].0, v[k].0));
    }
    sorted_already(d);
}

/// What was built for a tree that words hold exactly reads as that tree.
#[verifier::spinoff_prover]
#[verifier::rlimit(40)]
pub proof fn reading_undoes_building(
    cells: Seq<Cell>,
    w: i64,
    j: JsonV,
    trust: u8,
    from: int,
)
    requires
        represents(cells, w, j, trust, from),
        canonical(j),
    ensures
        reads_as(cells, w, j),
    decreases j,
{
    match j {
        JsonV::Int(i) => {
            ints_in_range_are_exact(i as int);
        },
        JsonV::Str(s) => {
            zeros_end_a_text(s);
        },
        JsonV::Array(v) => {
            let a = cells[points_at(w)]->Obj_0->Array_0;
            assert forall|k: int| 0 <= k < v.len() implies reads_as(
                cells,
                a@[k],
                #[trigger] v[k],
            ) by {
                let at = from + cells_of_seq(v, k as nat);
                assert(represents(cells, a@[k], v[k], trust, at));
                assert(canonical(v[k]));
                reading_undoes_building(cells, a@[k], v[k], trust, at);
            }
        },
        JsonV::Object(v) => {
            let d = cells[points_at(w)]->Obj_0->Dict_0;
            let ws = choose|ws: Seq<i64>|
                ws.len() == v.len() && d@ == #[trigger] put_all(v, ws, v.len()) && forall|k: int|
                    0 <= k < v.len() ==> represents(
                        cells,
                        ws[k],
                        (#[trigger] v[k]).1,
                        trust,
                        from + cells_of_members(v, k as nat),
                    );
            entries_stay_ascending(v, ws, d@);
            assert forall|k: int| 0 <= k < v.len() implies (#[trigger] v[k]).0 == by_key(d@)[k].0
                && reads_as(cells, by_key(d@)[k].1, v[k].1) by {
                let at = from + cells_of_members(v, k as nat);
                assert(represents(cells, ws[k], v[k].1, trust, at));
                assert(canonical(v[k].1));
                reading_undoes_building(cells, ws[k], v[k].1, trust, at);
            }
        },
        _ => {},
    }
}

/// A document becomes a tree of the same shape: an integer where it is one, a float where it
/// is not; elements and members stay in order, and members keep their names.
pub proof fn documents_become_trees(d: DocV, i: i64, f: u64, g: Option<u64>, s: Seq<char>)
    ensures
        tree_of(DocV::Null) == JsonV::Null,
        tree_of(DocV::Bool(true)) == JsonV::Bool(true),
        tree_of(DocV::Bool(false)) == JsonV::Bool(false),
        tree_of(DocV::Number(Some(i), g)) == JsonV::Int(i),
        tree_of(DocV::Number(None, Some(f))) == JsonV::Float(f),
        tree_of(DocV::Str(s)) == JsonV::Str(s),
        d matches DocV::Array(v) ==> (tree_of(d) matches JsonV::Array(t) && t.len() == v.len()
            && forall|k: int| 0 <= k < v.len() ==> #[trigger] t[k] == tree_of(v[k])),
        d matches DocV::Object(v) ==> (tree_of(d) matches JsonV::Object(t) && t.len() == v.len()
            && forall|k: int|
            0 <= k < v.len() ==> (#[trigger] t[k]).0 == v[k].0 && t[k].1 == tree_of(v[k].1)),
{
}

/// Members with different names become the entries of a dict, in order; where a name comes
/// again, the last one counts.
pub proof fn members_become_entries(v: Seq<(Seq<char>, JsonV)>, ws: Seq<i64>, n: nat, i: int)
    requires
        n <= v.len(),
        ws.len() == v.len(),
    ensures
        unique_keys(put_all(v, ws, n)),
        (forall|a: int, b: int|
            0 <= a < b < n ==> (#[trigger] v[a]).0 != (#[trigger] v[b]).0) ==> put_all(v, ws, n)
            == Seq::new(n, |k: int| (v[k].0, ws[k])),
        0 <= i < n && (forall|k: int| i < k < n ==> (#[trigger] v[k]).0 != v[i].0)
            ==> crate::coll::lookup(put_all(v, ws, n), v[i].0) == Some(ws[i]),
    decreases n,
{
    if n == 0 {
        assert(put_all(v, ws, n) =~= Seq::new(n, |k: int| (v[k].0, ws[k])));
    } else {
        let m = (n - 1) as nat;
        members_become_entries(v, ws, m, i);
        let s = put_all(v, ws, m);
        let (k, w) = (v[n - 1].0, ws[n - 1]);
        crate::coll::put_keeps_unique(s, k, w);
        if 0 <= i < n {
            crate::coll::lookup_after_put(s, k, w, v[i].0);
            if i < n - 1 && (forall|k: int| i < k < n ==> (#[trigger] v[k]).0 != v[i].0) {
                assert(v[n - 1].0 != v[i].0);
            }
        }
        if forall|a: int, b: int| 0 <= a < b < n ==> (#[trigger] v[a]).0 != (#[trigger] v[b]).0 {
            assert forall|j: int| 0 <= j < s.len() implies (#[trigger] s[j]).0 != k by {
                assert(s[j].0 == v[j].0);
                assert(v[j].0 != v[n - 1].0);
            }
            crate::coll::keys_keep_their_places(s, 0, k, w);
            assert(put_all(v, ws, n) =~= Seq::new(n, |k: int| (v[k].0, ws[k])));
        }
    }
}

/// A scalar of a tree is built as the word of its kind, and a text with the trust given.
pub proof fn scalars_are_built_as_themselves(
    cells: Seq<Cell>,
    w: i64,
    j: JsonV,
    trust: u8,
    from: int,
)
    requires
        represents(cells, w, j, trust, from),
    ensures
        j is Null ==> decode(w as u64) == Val::Nil,
        j matches JsonV::Bool(b) ==> decode(w as u64) == Val::Bool(b),
        j matches JsonV::Int(i) ==> (INT_MIN <= i <= INT_MAX ==> decode(w as u64) == Val::Int(
            i as int,
        )),
        j matches JsonV::Float(f) ==> (decode(w as u64) matches Val::Float(a) && float_at(cells, a)
            == Some(f)),
        j matches JsonV::Str(s) ==> (decode(w as u64) matches Val::Str(a) && str_at(cells, a) == (
            until_zero(s),
            trust,
        )),
{
}

/// A word reads as the scalar it is: an infinite float, or what is no number, as null.
pub proof fn words_read_as_themselves(cells: Seq<Cell>, w: i64, j: JsonV)
    requires
        reads_as(cells, w, j),
    ensures
        decode(w as u64) is Nil ==> j is Null,
        decode(w as u64) matches Val::Bool(b) ==> j == JsonV::Bool(b),
        decode(w as u64) matches Val::Int(i) ==> j == JsonV::Int(i as i64),
        decode(w as u64) matches Val::Str(a) ==> j == JsonV::Str(str_at(cells, a).0),
        decode(w as u64) matches Val::Float(a) ==> (float_at(cells, a) matches Some(f) ==> {
            &&& f % 0x8000_0000_0000_0000 < 0x7ff0_0000_0000_0000 ==> j == JsonV::Float(f)
            &&& f % 0x8000_0000_0000_0000 >= 0x7ff0_0000_0000_0000 ==> j is Null
        }),
{
    if let Val::Float(a) = decode(w as u64) {
        if let Some(f) = float_at(cells, a) {
            crate::floatbits::infinity_bounds_the_numbers(f);
        }
    }
}

} // verus!
