//! The text of a value.
//!
//! Rendering a value yields a sequence of [`Glyph`]s: characters, and floats that are
//! still to be spelled. Arrays frame as `[a, b]`, dicts as `{"k": v}` with their keys
//! sorted and quoted; the opaque kinds print as a tag.

use vstd::prelude::*;

use crate::gc::Heap;
use crate::obj::{Cell, FnObj, FnSort, Obj};
use crate::ops::{string_at, unbox_float};
use crate::sort::sort_by_key;
use crate::text::{chars_of, int_text, join};
use crate::value::JadeValue;
#[allow(unused_imports)]
use crate::gc::points_at;
#[allow(unused_imports)]
use crate::jsonf::{acyclic, depth_of, dict_nests, member_of_sorted, nests_within};
#[allow(unused_imports)]
use crate::ops::{float_at, str_at};
#[allow(unused_imports)]
use crate::sort::{
    by_key, distinct_keys, keyed, keys_ascend, sorting_forgets_the_order, sorting_sorts,
};
#[allow(unused_imports)]
use crate::store::entry_views;
#[allow(unused_imports)]
use crate::text::{decimal, joined, texts};
#[allow(unused_imports)]
use crate::value::{decode, Val};

verus! {

/// A character of rendered text, or a float still to be spelled.
#[derive(Clone, Copy, PartialEq, Eq, Debug, Structural)]
pub enum Glyph {
    /// A character.
    Char(char),
    /// A float, by its bit pattern.
    Float(u64),
}

/// A text as glyphs.
pub open spec fn glyphs(s: Seq<char>) -> Seq<Glyph>
    decreases s.len(),
{
    if s.len() == 0 {
        seq![]
    } else {
        glyphs(s.drop_last()).push(Glyph::Char(s.last()))
    }
}

/// Appending one more character of a text.
proof fn one_more(start: Seq<Glyph>, out: Seq<Glyph>, s: Seq<char>, i: int, c: char)
    requires
        0 <= i < s.len(),
        s[i] == c,
        out == start + glyphs(s.take(i)),
    ensures
        out.push(Glyph::Char(c)) == start + glyphs(s.take(i + 1)),
{
    assert(s.take(i + 1).drop_last() =~= s.take(i));
    assert(s.take(i + 1).last() == c);
    assert(out.push(Glyph::Char(c)) =~= start + glyphs(s.take(i + 1)));
}

/// Append a text.
fn put(out: &mut Vec<Glyph>, s: &str)
    ensures
        final(out)@ == old(out)@ + glyphs(s@),
{
    let v = chars_of(s);
    let mut i: usize = 0;
    while i < v.len()
        invariant
            i <= v@.len(),
            v@ == s@,
            out@ == old(out)@ + glyphs(s@.take(i as int)),
        decreases v@.len() - i,
    {
        let c: char = v[i];
        proof {
            one_more(old(out)@, out@, s@, i as int, c);
        }
        out.push(Glyph::Char(c));
        i += 1;
    }
    assert(s@.take(i as int) =~= s@);
}

/// The text of glyphs that hold no float.
pub fn glyph_text(g: &[Glyph]) -> (r: Option<String>)
    ensures
        match r {
            Some(s) => g@ == glyphs(s@),
            None => exists|i: int| 0 <= i < g@.len() && g@[i] is Float,
        },
{
    let mut s = String::new();
    let mut i: usize = 0;
    while i < g.len()
        invariant
            i <= g@.len(),
            glyphs(s@) == g@.take(i as int),
        decreases g@.len() - i,
    {
        let ghost before = s@;
        match g[i] {
            Glyph::Char(c) => {
                s.push(c);
            },
            Glyph::Float(_) => {
                assert(g@[i as int] is Float);
                return None;
            },
        }
        i += 1;
        assert(s@.drop_last() =~= before);
        assert(glyphs(s@) =~= g@.take(i as int));
    }
    assert(g@.take(i as int) =~= g@);
    Some(s)
}

// ── Framing ──────────────────────────────────────────────────────────────────

/// Frame rendered elements as `[a, b, c]`.
pub fn render_array(parts: &[String]) -> (s: String)
    ensures
        s@ == "["@ + joined(texts(parts@), ", "@) + "]"@,
{
    let mut s = "[".to_owned();
    let inner = join(parts, ", ");
    s.append(inner.as_str());
    s.append("]");
    s
}

/// The hexadecimal digit of a number below sixteen.
pub open spec fn hex_digit(d: int) -> char {
    if d < 10 {
        (48 + d) as char
    } else {
        (87 + d) as char
    }
}

/// How one octet of a blob prints.
pub open spec fn octet_text(c: u8) -> Seq<char> {
    if c == 92 {
        "\\\\"@
    } else if c == 34 {
        "\\\""@
    } else if c == 10 {
        "\\n"@
    } else if c == 13 {
        "\\r"@
    } else if c == 9 {
        "\\t"@
    } else if 0x20 <= c <= 0x7e {
        seq![c as char]
    } else {
        "\\x"@ + seq![hex_digit(c as int / 16), hex_digit(c as int % 16)]
    }
}

/// How the octets of a blob print, without the quotes.
pub open spec fn octets_text(data: Seq<u8>) -> Seq<char>
    decreases data.len(),
{
    if data.len() == 0 {
        seq![]
    } else {
        octets_text(data.drop_last()) + octet_text(data.last())
    }
}

/// How a blob prints.
pub open spec fn bytes_text(data: Seq<u8>) -> Seq<char> {
    "b\""@ + octets_text(data) + "\""@
}

/// The hexadecimal digit of a number below sixteen.
fn hex(d: u8) -> (c: char)
    requires
        d < 16,
    ensures
        c == hex_digit(d as int),
{
    if d < 10 {
        (48 + d) as char
    } else {
        (87 + d) as char
    }
}

/// Render a blob as `b"…"`, octets that do not print escaped.
pub fn render_bytes(data: &[u8]) -> (s: String)
    ensures
        s@ == bytes_text(data@),
{
    let mut out = "b\"".to_owned();
    let mut i: usize = 0;
    while i < data.len()
        invariant
            i <= data@.len(),
            out@ == "b\""@ + octets_text(data@.take(i as int)),
        decreases data@.len() - i,
    {
        let c: u8 = data[i];
        let ghost before = out@;
        if c == 92 {
            out.append("\\\\");
        } else if c == 34 {
            out.append("\\\"");
        } else if c == 10 {
            out.append("\\n");
        } else if c == 13 {
            out.append("\\r");
        } else if c == 9 {
            out.append("\\t");
        } else if 0x20 <= c && c <= 0x7e {
            out.push(c as char);
        } else {
            out.append("\\x");
            out.push(hex(c / 16));
            out.push(hex(c % 16));
        }
        i += 1;
        proof {
            assert(data@.take(i as int).drop_last() =~= data@.take(i - 1));
            assert(out@ =~= before + octet_text(c));
            assert(out@ =~= "b\""@ + octets_text(data@.take(i as int)));
        }
    }
    assert(data@.take(i as int) =~= data@);
    out.append("\"");
    out
}

/// The character prints as itself between quotes.
pub open spec fn prints_as_itself(c: char) -> bool {
    0x20 <= (c as int) <= 0x7e && c != '"' && c != '\\'
}

/// What `{:?}` makes of a string.
pub uninterp spec fn debug_quoted(k: Seq<char>) -> Seq<char>;

/// `format!("{:?}")` of a string: the text between double quotes, escaped where a
/// literal would have to be. A text of plain printable ASCII is not changed between
/// the quotes; how anything else is escaped is not stated.
#[verifier::external_body]
pub fn quote_key(k: &str) -> (s: String)
    ensures
        s@ == debug_quoted(k@),
        (forall|i: int| 0 <= i < k@.len() ==> prints_as_itself(#[trigger] k@[i])) ==> s@ == "\""@
            + k@ + "\""@,
{
    format!("{:?}", k)
}

/// One rendered dict entry.
pub open spec fn entry_text(e: (Seq<char>, String)) -> Seq<char> {
    debug_quoted(e.0) + ": "@ + e.1@
}

/// Rendered entries, framed as a dict.
pub open spec fn framed(entries: Seq<(Seq<char>, String)>) -> Seq<char> {
    "{"@ + joined(entries.map_values(|e: (Seq<char>, String)| entry_text(e)), ", "@) + "}"@
}

/// Frame rendered dict entries as `{"k": v, ...}`, keys quoted. The entries are sorted in
/// place: ascending by key, those with the same key in the order they came in.
pub fn render_dict(entries: &mut Vec<(String, String)>) -> (s: String)
    ensures
        keyed(final(entries)@) == by_key(keyed(old(entries)@)),
        keys_ascend(keyed(final(entries)@)),
        keyed(final(entries)@).to_multiset() == keyed(old(entries)@).to_multiset(),
        s@ == framed(keyed(final(entries)@)),
{
    let ghost want = by_key(keyed(entries@));
    proof {
        sorting_sorts(keyed(entries@));
    }
    let mut unsorted: Vec<(String, String)> = Vec::new();
    core::mem::swap(&mut unsorted, entries);
    *entries = sort_by_key(unsorted);
    let s = frame_entries(entries.as_slice());
    s
}

/// Frame rendered dict entries as `{"k": v, ...}`, keys quoted, in the order they have.
fn frame_entries(sorted: &[(String, String)]) -> (s: String)
    ensures
        s@ == framed(keyed(sorted@)),
{
    let ghost want = keyed(sorted@);
    let mut parts: Vec<String> = Vec::new();
    let mut i: usize = 0;
    while i < sorted.len()
        invariant
            i <= sorted@.len(),
            keyed(sorted@) == want,
            parts@.len() == i,
            forall|k: int| 0 <= k < i ==> (#[trigger] parts@[k])@ == entry_text(want[k]),
        decreases sorted@.len() - i,
    {
        assert(keyed(sorted@)[i as int] == (sorted@[i as int].0@, sorted@[i as int].1));
        let mut p = quote_key(sorted[i].0.as_str());
        p.append(": ");
        p.append(sorted[i].1.as_str());
        parts.push(p);
        i += 1;
    }
    assert(keyed(sorted@).len() == sorted@.len());
    assert(texts(parts@) =~= want.map_values(|e: (Seq<char>, String)| entry_text(e)));
    let mut s = "{".to_owned();
    let inner = join(parts.as_slice(), ", ");
    s.append(inner.as_str());
    s.append("}");
    s
}

// ── Words ────────────────────────────────────────────────────────────────────

/// How a callable prints.
pub open spec fn fn_text(f: FnObj) -> Seq<char> {
    match (f.sort, f.name) {
        (FnSort::Builtin, Some(n)) => "<builtin "@ + n@ + ">"@,
        (FnSort::Type, Some(n)) => "<type "@ + n@ + ">"@,
        (FnSort::Native, _) => "<native fn>"@,
        (FnSort::NativeLib, Some(n)) => "<native lib fn "@ + n@ + ">"@,
        (FnSort::NativeLib, None) => "<native lib fn>"@,
        _ => "<fn>"@,
    }
}

/// The first `n` elements rendered, `", "` between neighbours.
pub open spec fn elements(cells: Seq<Cell>, ws: Seq<i64>, n: nat, d: nat) -> Seq<Glyph>
    decreases d, n, 1nat,
{
    if n == 0 || n > ws.len() {
        seq![]
    } else {
        elements(cells, ws, (n - 1) as nat, d) + (if n > 1 {
            glyphs(", "@)
        } else {
            seq![]
        }) + spec_render(cells, ws[n - 1], d)
    }
}

/// The first `n` entries rendered, `", "` between neighbours.
pub open spec fn members(
    cells: Seq<Cell>,
    es: Seq<(Seq<char>, i64)>,
    n: nat,
    d: nat,
) -> Seq<Glyph>
    decreases d, n, 1nat,
{
    if n == 0 || n > es.len() {
        seq![]
    } else {
        members(cells, es, (n - 1) as nat, d) + (if n > 1 {
            glyphs(", "@)
        } else {
            seq![]
        }) + glyphs(debug_quoted(es[n - 1].0) + ": "@) + spec_render(cells, es[n - 1].1, d)
    }
}

/// How a word renders when its containers nest no deeper than `d`.
pub open spec fn spec_render(cells: Seq<Cell>, w: i64, d: nat) -> Seq<Glyph>
    decreases d, 0nat, 0nat,
{
    match decode(w as u64) {
        Val::Int(i) => glyphs(decimal(i)),
        Val::Bool(b) => glyphs(
            if b {
                "true"@
            } else {
                "false"@
            },
        ),
        Val::Nil => glyphs("nil"@),
        Val::Char(c, _) => glyphs(seq![c]),
        Val::Float(a) => match float_at(cells, a) {
            Some(f) => seq![Glyph::Float(f)],
            None => seq![],
        },
        Val::Str(a) => glyphs(str_at(cells, a).0),
        _ => {
            let i = points_at(w);
            if 0 <= i < cells.len() && cells[i] is Obj {
                match cells[i]->Obj_0 {
                    Obj::Bytes(b) => glyphs(bytes_text(b.data@)),
                    Obj::Handle(x) => glyphs(crate::handle::spec_render(x.native_type@)),
                    Obj::Array(a) => if d == 0 {
                        seq![]
                    } else {
                        glyphs("["@) + elements(cells, a@, a@.len(), (d - 1) as nat) + glyphs("]"@)
                    },
                    Obj::Dict(e) => if d == 0 {
                        seq![]
                    } else {
                        glyphs("{"@) + members(cells, by_key(e@), by_key(e@).len(), (d - 1) as nat)
                            + glyphs("}"@)
                    },
                    Obj::Struct(_) => glyphs("<struct>"@),
                    Obj::Future(_) => glyphs("<future>"@),
                    Obj::Prompt(_) => glyphs("<prompt>"@),
                    Obj::Grammar(_) => glyphs("<grammar>"@),
                    Obj::Bound(_) => glyphs("<bound method>"@),
                    Obj::Fn(f) => glyphs(fn_text(f)),
                }
            } else {
                glyphs("<object>"@)
            }
        },
    }
}

/// Append how a callable prints.
fn put_fn(out: &mut Vec<Glyph>, f: &FnObj)
    ensures
        final(out)@ == old(out)@ + glyphs(fn_text(*f)),
{
    let mut s = String::new();
    match (f.sort, &f.name) {
        (FnSort::Builtin, Some(n)) => {
            s.append("<builtin ");
            s.append(n.as_str());
            s.append(">");
        },
        (FnSort::Type, Some(n)) => {
            s.append("<type ");
            s.append(n.as_str());
            s.append(">");
        },
        (FnSort::Native, _) => {
            s.append("<native fn>");
        },
        (FnSort::NativeLib, Some(n)) => {
            s.append("<native lib fn ");
            s.append(n.as_str());
            s.append(">");
        },
        (FnSort::NativeLib, None) => {
            s.append("<native lib fn>");
        },
        _ => {
            s.append("<fn>");
        },
    }
    assert(s@ =~= fn_text(*f));
    put(out, s.as_str());
}

/// Append the rendering of `w`, whose containers nest no deeper than `d`.
fn render_into(h: &Heap, w: i64, out: &mut Vec<Glyph>, Ghost(d): Ghost<nat>)
    requires
        nests_within(h.cells@, w, d),
    ensures
        final(out)@ == old(out)@ + spec_render(h.cells@, w, d),
    decreases d,
{
    let ghost start = out@;
    let v = JadeValue::from_word(w);
    if v.is_int() {
        let s = int_text(v.as_int());
        put(out, s.as_str());
        return;
    }
    if v.is_bool() {
        put(
            out,
            if v.as_bool() {
                "true"
            } else {
                "false"
            },
        );
        return;
    }
    if v.is_nil() {
        put(out, "nil");
        return;
    }
    match v.as_char() {
        Some(c) => {
            out.push(Glyph::Char(c));
            assert(seq![c].drop_last() =~= seq![]);
            reveal_with_fuel(glyphs, 2);
            assert(out@ =~= start + glyphs(seq![c]));
            return;
        },
        None => {},
    }
    if v.is_float() {
        match unbox_float(h, v.as_ptr()) {
            Some(f) => {
                out.push(Glyph::Float(f));
            },
            None => {},
        }
        assert(out@ =~= start + spec_render(h.cells@, w, d));
        return;
    }
    if v.is_str() {
        match string_at(h, v.as_ptr()) {
            Some(s) => put(out, s.text.as_str()),
            None => {
                assert(out@ =~= start + glyphs(seq![]));
            },
        }
        return;
    }
    match h.object(w) {
        Some(Obj::Bytes(b)) => {
            let s = render_bytes(b.as_slice());
            put(out, s.as_str());
        },
        Some(Obj::Handle(x)) => {
            let s = crate::handle::render(x);
            put(out, s.as_str());
        },
        Some(Obj::Array(a)) => {
            put(out, "[");
            let s = a.as_slice();
            let mut i: usize = 0;
            assert(d > 0);
            while i < s.len()
                invariant
                    i <= s@.len(),
                    s@ == a@,
                    d > 0,
                    nests_within(h.cells@, w, d),
                    0 <= points_at(w) < h.cells@.len(),
                    h.cells@[points_at(w)] == Cell::Obj(Obj::Array(*a)),
                    out@ == start + glyphs("["@) + elements(h.cells@, a@, i as nat, (d - 1) as nat),
                decreases s@.len() - i,
            {
                proof {
                    let b = h.cells@[points_at(w)]->Obj_0->Array_0;
                    assert(b == *a);
                    assert(nests_within(h.cells@, b@[i as int], (d - 1) as nat));
                }
                if i > 0 {
                    put(out, ", ");
                }
                render_into(h, s[i], out, Ghost((d - 1) as nat));
                i += 1;
                assert(out@ =~= start + glyphs("["@) + elements(
                    h.cells@,
                    a@,
                    i as nat,
                    (d - 1) as nat,
                ));
            }
            put(out, "]");
            assert(out@ =~= start + spec_render(h.cells@, w, d));
        },
        Some(Obj::Dict(e)) => {
            put(out, "{");
            let slots = e.entries();
            let mut copy: Vec<(String, i64)> = Vec::new();
            let mut i: usize = 0;
            while i < slots.len()
                invariant
                    i <= slots@.len(),
                    copy@.len() == i,
                    forall|k: int|
                        0 <= k < i ==> (#[trigger] copy@[k]).0@ == slots@[k].0@ && copy@[k].1
                            == slots@[k].1,
                decreases slots@.len() - i,
            {
                copy.push((slots[i].0.clone(), slots[i].1));
                i += 1;
            }
            assert(keyed(copy@) =~= entry_views(slots@));
            let sorted = sort_by_key(copy);
            let ghost es = by_key(e@);
            assert(d > 0);
            let mut k: usize = 0;
            while k < sorted.len()
                invariant
                    k <= sorted@.len(),
                    es == by_key(e@),
                    keyed(sorted@) == es,
                    d > 0,
                    nests_within(h.cells@, w, d),
                    0 <= points_at(w) < h.cells@.len(),
                    h.cells@[points_at(w)] == Cell::Obj(Obj::Dict(*e)),
                    out@ == start + glyphs("{"@) + members(h.cells@, es, k as nat, (d - 1) as nat),
                decreases sorted@.len() - k,
            {
                proof {
                    assert(keyed(sorted@)[k as int] == (sorted@[k as int].0@, sorted@[k as int].1));
                    member_of_sorted(e@, k as int);
                    let m = choose|m: int| 0 <= m < e@.len() && e@[m] == by_key(e@)[k as int];
                    dict_nests(h.cells@, w, d, *e, m);
                }
                if k > 0 {
                    put(out, ", ");
                }
                let mut key = quote_key(sorted[k].0.as_str());
                key.append(": ");
                put(out, key.as_str());
                render_into(h, sorted[k].1, out, Ghost((d - 1) as nat));
                k += 1;
                assert(out@ =~= start + glyphs("{"@) + members(
                    h.cells@,
                    es,
                    k as nat,
                    (d - 1) as nat,
                ));
            }
            assert(keyed(sorted@).len() == sorted@.len());
            put(out, "}");
            assert(out@ =~= start + spec_render(h.cells@, w, d));
        },
        Some(Obj::Struct(_)) => put(out, "<struct>"),
        Some(Obj::Future(_)) => put(out, "<future>"),
        Some(Obj::Prompt(_)) => put(out, "<prompt>"),
        Some(Obj::Grammar(_)) => put(out, "<grammar>"),
        Some(Obj::Bound(_)) => put(out, "<bound method>"),
        Some(Obj::Fn(f)) => put_fn(out, f),
        None => put(out, "<object>"),
    }
}

/// Render a value word. Rendering has no end on a cycle.
pub fn render_word(h: &Heap, w: i64) -> (out: Vec<Glyph>)
    requires
        acyclic(h.cells@, w),
    ensures
        out@ == spec_render(h.cells@, w, depth_of(h.cells@, w)),
        forall|d: nat| nests_within(h.cells@, w, d) ==> out@ == #[trigger] spec_render(
            h.cells@,
            w,
            d,
        ),
{
    let ghost d = depth_of(h.cells@, w);
    let mut out: Vec<Glyph> = Vec::new();
    render_into(h, w, &mut out, Ghost(d));
    proof {
        assert(out@ =~= spec_render(h.cells@, w, d));
        assert forall|e: nat| nests_within(h.cells@, w, e) implies out@ == #[trigger] spec_render(
            h.cells@,
            w,
            e,
        ) by {
            depth_does_not_matter(h.cells@, w, d, e);
        }
    }
    out
}

/// A word renders alike at every depth it nests within.
pub proof fn depth_does_not_matter(cells: Seq<Cell>, w: i64, d: nat, e: nat)
    requires
        nests_within(cells, w, d),
        nests_within(cells, w, e),
    ensures
        spec_render(cells, w, d) == spec_render(cells, w, e),
    decreases d, 0nat,
{
    let i = points_at(w);
    if 0 <= i < cells.len() && cells[i] is Obj {
        match cells[i]->Obj_0 {
            Obj::Array(a) => {
                assert forall|k: int| 0 <= k < a@.len() implies nests_within(
                    cells,
                    #[trigger] a@[k],
                    (d - 1) as nat,
                ) && nests_within(cells, a@[k], (e - 1) as nat) by {
                    let b = cells[i]->Obj_0->Array_0;
                    assert(nests_within(cells, b@[k], (d - 1) as nat));
                    assert(nests_within(cells, b@[k], (e - 1) as nat));
                }
                elements_depth(cells, a@, a@.len(), (d - 1) as nat, (e - 1) as nat);
            },
            Obj::Dict(x) => {
                let es = by_key(x@);
                assert forall|k: int| 0 <= k < es.len() implies nests_within(
                    cells,
                    (#[trigger] es[k]).1,
                    (d - 1) as nat,
                ) && nests_within(cells, es[k].1, (e - 1) as nat) by {
                    member_of_sorted(x@, k);
                    let m = choose|m: int| 0 <= m < x@.len() && x@[m] == by_key(x@)[k];
                    dict_nests(cells, w, d, x, m);
                    dict_nests(cells, w, e, x, m);
                }
                members_depth(cells, es, es.len(), (d - 1) as nat, (e - 1) as nat);
            },
            _ => {},
        }
    }
}

/// Elements render alike at every depth they nest within.
proof fn elements_depth(cells: Seq<Cell>, ws: Seq<i64>, n: nat, d: nat, e: nat)
    requires
        n <= ws.len(),
        forall|k: int|
            0 <= k < ws.len() ==> nests_within(cells, #[trigger] ws[k], d) && nests_within(
                cells,
                ws[k],
                e,
            ),
    ensures
        elements(cells, ws, n, d) == elements(cells, ws, n, e),
    decreases d, n,
{
    if n > 0 {
        elements_depth(cells, ws, (n - 1) as nat, d, e);
        depth_does_not_matter(cells, ws[n - 1], d, e);
    }
}

/// Members render alike at every depth they nest within.
proof fn members_depth(cells: Seq<Cell>, es: Seq<(Seq<char>, i64)>, n: nat, d: nat, e: nat)
    requires
        n <= es.len(),
        forall|k: int|
            0 <= k < es.len() ==> nests_within(cells, (#[trigger] es[k]).1, d) && nests_within(
                cells,
                es[k].1,
                e,
            ),
    ensures
        members(cells, es, n, d) == members(cells, es, n, e),
    decreases d, n,
{
    if n > 0 {
        members_depth(cells, es, (n - 1) as nat, d, e);
        depth_does_not_matter(cells, es[n - 1].1, d, e);
    }
}

/// Where keys are distinct, the order in which entries come does not show.
pub proof fn entry_order_does_not_show(a: Seq<(Seq<char>, String)>, b: Seq<(Seq<char>, String)>)
    requires
        distinct_keys(a),
        a.to_multiset() == b.to_multiset(),
    ensures
        framed(by_key(a)) == framed(by_key(b)),
{
    sorting_forgets_the_order(a, b);
}

/// Octets print one behind the other.
proof fn octets_print_in_turn(data: Seq<u8>)
    requires
        data.len() > 0,
    ensures
        octets_text(data) == octet_text(data[0]) + octets_text(data.skip(1)),
    decreases data.len(),
{
    if data.len() == 1 {
        assert(data.drop_last() =~= seq![]);
        assert(data.skip(1) =~= seq![]);
        assert(octets_text(data) =~= octet_text(data[0]) + octets_text(data.skip(1)));
    } else {
        let less = data.drop_last();
        octets_print_in_turn(less);
        assert(less.skip(1) =~= data.skip(1).drop_last());
        assert(octets_text(data) =~= octet_text(data[0]) + octets_text(data.skip(1)));
    }
}

/// What an octet prints as begins no other octet's text.
proof fn octets_are_told_apart(c: u8, d: u8, x: Seq<char>, y: Seq<char>)
    requires
        octet_text(c) + x == octet_text(d) + y,
    ensures
        c == d,
{
    reveal_strlit("\\\\");
    reveal_strlit("\\\"");
    reveal_strlit("\\n");
    reveal_strlit("\\r");
    reveal_strlit("\\t");
    reveal_strlit("\\x");
    let p = octet_text(c) + x;
    let q = octet_text(d) + y;
    assert(p[0] == octet_text(c)[0]);
    assert(q[0] == octet_text(d)[0]);
    if octet_text(c).len() > 1 {
        assert(p[1] == octet_text(c)[1]);
    }
    if octet_text(d).len() > 1 {
        assert(q[1] == octet_text(d)[1]);
    }
    if octet_text(c).len() == 4 && octet_text(d).len() == 4 {
        assert(p[2] == hex_digit(c as int / 16));
        assert(p[3] == hex_digit(c as int % 16));
        assert(q[2] == hex_digit(d as int / 16));
        assert(q[3] == hex_digit(d as int % 16));
    }
}

/// The text of a blob is unambiguous: blobs that print alike hold the same octets.
pub proof fn blobs_print_unambiguously(a: Seq<u8>, b: Seq<u8>)
    requires
        bytes_text(a) == bytes_text(b),
    ensures
        a == b,
{
    let s = bytes_text(a);
    let n = "b\""@.len() as int;
    reveal_strlit("\"");
    assert(octets_text(a) =~= s.subrange(n, s.len() - 1));
    assert(octets_text(b) =~= s.subrange(n, s.len() - 1));
    same_octets(a, b);
}

/// Octets that print alike are the same.
proof fn same_octets(a: Seq<u8>, b: Seq<u8>)
    requires
        octets_text(a) == octets_text(b),
    ensures
        a == b,
    decreases a.len(),
{
    octet_has_text(a);
    octet_has_text(b);
    if a.len() > 0 && b.len() > 0 {
        let x = octets_text(a.skip(1));
        let y = octets_text(b.skip(1));
        octets_print_in_turn(a);
        octets_print_in_turn(b);
        octets_are_told_apart(a[0], b[0], x, y);
        let k = octet_text(a[0]).len() as int;
        assert(x =~= octets_text(a).skip(k));
        assert(y =~= octets_text(b).skip(k));
        same_octets(a.skip(1), b.skip(1));
        assert(a =~= seq![a[0]] + a.skip(1));
        assert(b =~= seq![b[0]] + b.skip(1));
    } else {
        assert(a =~= b);
    }
}

/// Some octets print as some text.
proof fn octet_has_text(data: Seq<u8>)
    ensures
        data.len() > 0 ==> octets_text(data).len() > 0,
{
    reveal_strlit("\\\\");
    reveal_strlit("\\\"");
    reveal_strlit("\\n");
    reveal_strlit("\\r");
    reveal_strlit("\\t");
    reveal_strlit("\\x");
}

// ── What rendering gives ─────────────────────────────────────────────────────

/// The last character of a text has the last glyph.
proof fn last_glyph(s: Seq<char>, c: char)
    requires
        s.len() > 0,
        s.last() == c,
    ensures
        glyphs(s) == glyphs(s.drop_last()).push(Glyph::Char(c)),
        glyphs(s).len() == glyphs(s.drop_last()).len() + 1,
        glyphs(s).drop_last() == glyphs(s.drop_last()),
        glyphs(s).last() == Glyph::Char(c),
{
    let r = s.drop_last();
    let g: Seq<Glyph> = glyphs(r).push(Glyph::Char(c));
    assert(g.len() == glyphs(r).len() + 1);
    assert(g =~= glyphs(s));
    assert(g == glyphs(s));
    assert(g.drop_last() =~= glyphs(r));
}

/// A text has one glyph for each character, in order.
pub proof fn glyphs_spell_the_text(s: Seq<char>)
    ensures
        glyphs(s).len() == s.len(),
        forall|i: int| 0 <= i < s.len() ==> #[trigger] glyphs(s)[i] == Glyph::Char(s[i]),
    decreases s.len(),
{
    if s.len() > 0 {
        let r = s.drop_last();
        glyphs_spell_the_text(r);
        last_glyph(s, s.last());
        assert forall|i: int| 0 <= i < s.len() implies #[trigger] glyphs(s)[i] == Glyph::Char(
            s[i],
        ) by {
            if i < r.len() {
                assert(glyphs(s)[i] == glyphs(s).drop_last()[i]);
                assert(glyphs(r)[i] == Glyph::Char(r[i]));
            }
        }
    }
}

/// Texts one behind the other have their glyphs so.
proof fn glyphs_join(a: Seq<char>, b: Seq<char>)
    ensures
        glyphs(a + b) == glyphs(a) + glyphs(b),
{
    glyphs_spell_the_text(a);
    glyphs_spell_the_text(b);
    glyphs_spell_the_text(a + b);
    assert(glyphs(a + b) =~= glyphs(a) + glyphs(b));
}

/// Renderings with the separator of a list between neighbours.
pub open spec fn listed(parts: Seq<Seq<Glyph>>) -> Seq<Glyph>
    decreases parts.len(),
{
    if parts.len() == 0 {
        seq![]
    } else if parts.len() == 1 {
        parts[0]
    } else {
        parts[0] + seq![Glyph::Char(','), Glyph::Char(' ')] + listed(parts.skip(1))
    }
}

/// A list with one more part at its end.
proof fn listed_grows(parts: Seq<Seq<Glyph>>, p: Seq<Glyph>)
    requires
        parts.len() > 0,
    ensures
        listed(parts.push(p)) == listed(parts) + seq![Glyph::Char(','), Glyph::Char(' ')] + p,
    decreases parts.len(),
{
    let all = parts.push(p);
    assert(all[0] == parts[0]);
    if parts.len() == 1 {
        assert(all.skip(1) =~= seq![p]);
        assert(listed(seq![p]) == p);
    } else {
        assert(all.skip(1) =~= parts.skip(1).push(p));
        listed_grows(parts.skip(1), p);
        assert(listed(all) =~= listed(parts) + seq![Glyph::Char(','), Glyph::Char(' ')] + p);
    }
}

/// The separator of a list.
proof fn separator()
    ensures
        glyphs(", "@) == seq![Glyph::Char(','), Glyph::Char(' ')],
        glyphs(": "@) == seq![Glyph::Char(':'), Glyph::Char(' ')],
        glyphs("["@) == seq![Glyph::Char('[')],
        glyphs("]"@) == seq![Glyph::Char(']')],
        glyphs("{"@) == seq![Glyph::Char('{')],
        glyphs("}"@) == seq![Glyph::Char('}')],
{
    reveal_strlit(", ");
    reveal_strlit(": ");
    reveal_strlit("[");
    reveal_strlit("]");
    reveal_strlit("{");
    reveal_strlit("}");
    glyphs_spell_the_text(", "@);
    glyphs_spell_the_text(": "@);
    glyphs_spell_the_text("["@);
    glyphs_spell_the_text("]"@);
    glyphs_spell_the_text("{"@);
    glyphs_spell_the_text("}"@);
    assert(glyphs(", "@) =~= seq![Glyph::Char(','), Glyph::Char(' ')]);
    assert(glyphs(": "@) =~= seq![Glyph::Char(':'), Glyph::Char(' ')]);
    assert(glyphs("["@) =~= seq![Glyph::Char('[')]);
    assert(glyphs("]"@) =~= seq![Glyph::Char(']')]);
    assert(glyphs("{"@) =~= seq![Glyph::Char('{')]);
    assert(glyphs("}"@) =~= seq![Glyph::Char('}')]);
}

/// Elements are listed.
proof fn elements_listed(cells: Seq<Cell>, ws: Seq<i64>, n: nat, d: nat)
    requires
        n <= ws.len(),
    ensures
        elements(cells, ws, n, d) == listed(Seq::new(n, |i: int| spec_render(cells, ws[i], d))),
    decreases n,
{
    let parts = Seq::new(n, |i: int| spec_render(cells, ws[i], d));
    if n > 0 {
        let m = (n - 1) as nat;
        elements_listed(cells, ws, m, d);
        let less = Seq::new(m, |i: int| spec_render(cells, ws[i], d));
        let x = spec_render(cells, ws[m as int], d);
        assert(parts =~= less.push(x));
        separator();
        if m > 0 {
            listed_grows(less, x);
        } else {
            assert(less =~= seq![]);
            assert(parts =~= seq![x]);
            assert(elements(cells, ws, n, d) =~= x);
        }
    }
}

/// The rendering of an entry: the quoted key, a colon, and the value.
pub open spec fn entry_glyphs(cells: Seq<Cell>, e: (Seq<char>, i64), d: nat) -> Seq<Glyph> {
    glyphs(debug_quoted(e.0)) + seq![Glyph::Char(':'), Glyph::Char(' ')] + spec_render(
        cells,
        e.1,
        d,
    )
}

/// Members are listed.
proof fn members_listed(cells: Seq<Cell>, es: Seq<(Seq<char>, i64)>, n: nat, d: nat)
    requires
        n <= es.len(),
    ensures
        members(cells, es, n, d) == listed(Seq::new(n, |i: int| entry_glyphs(cells, es[i], d))),
    decreases n,
{
    let parts = Seq::new(n, |i: int| entry_glyphs(cells, es[i], d));
    if n > 0 {
        let m = (n - 1) as nat;
        members_listed(cells, es, m, d);
        let less = Seq::new(m, |i: int| entry_glyphs(cells, es[i], d));
        let x = entry_glyphs(cells, es[m as int], d);
        assert(parts =~= less.push(x));
        separator();
        let e = es[m as int];
        glyphs_join(debug_quoted(e.0), ": "@);
        assert(glyphs(debug_quoted(e.0) + ": "@) + spec_render(cells, e.1, d) =~= x);
        if m > 0 {
            listed_grows(less, x);
            assert(members(cells, es, n, d) =~= listed(less) + seq![
                Glyph::Char(','),
                Glyph::Char(' '),
            ] + x);
        } else {
            assert(less =~= seq![]);
            assert(parts =~= seq![x]);
            assert(members(cells, es, n, d) =~= x);
        }
    }
}

/// An array renders as its elements between brackets, a comma and a space between every
/// two neighbours.
pub proof fn arrays_list_their_elements(cells: Seq<Cell>, w: i64, d: nat)
    requires
        decode(w as u64) is Ptr,
        0 <= points_at(w) < cells.len(),
        cells[points_at(w)] matches Cell::Obj(Obj::Array(_)),
        d > 0,
    ensures
        ({
            let a = cells[points_at(w)]->Obj_0->Array_0;
            spec_render(cells, w, d) == seq![Glyph::Char('[')] + listed(
                Seq::new(a@.len(), |i: int| spec_render(cells, a@[i], (d - 1) as nat)),
            ) + seq![Glyph::Char(']')]
        }),
{
    let a = cells[points_at(w)]->Obj_0->Array_0;
    elements_listed(cells, a@, a@.len(), (d - 1) as nat);
    separator();
}

/// A dict renders as its entries between braces, ascending by key, each key quoted and
/// parted from its value by a colon and a space, a comma and a space between neighbours.
pub proof fn dicts_list_their_entries(cells: Seq<Cell>, w: i64, d: nat)
    requires
        decode(w as u64) is Ptr,
        0 <= points_at(w) < cells.len(),
        cells[points_at(w)] matches Cell::Obj(Obj::Dict(_)),
        d > 0,
    ensures
        ({
            let e = cells[points_at(w)]->Obj_0->Dict_0;
            exists|es: Seq<(Seq<char>, i64)>| #[trigger]
                keys_ascend(es) && es.to_multiset() == e@.to_multiset() && spec_render(cells, w, d)
                    == seq![Glyph::Char('{')] + listed(
                    Seq::new(es.len(), |i: int| entry_glyphs(cells, es[i], (d - 1) as nat)),
                ) + seq![Glyph::Char('}')]
        }),
{
    let e = cells[points_at(w)]->Obj_0->Dict_0;
    let es = by_key(e@);
    sorting_sorts(e@);
    members_listed(cells, es, es.len(), (d - 1) as nat);
    separator();
    assert(keys_ascend(es));
}

/// Scalars render as themselves: digits, words, the character, the text, and a float as
/// one that is still to be spelled.
pub proof fn scalars_render_plainly(cells: Seq<Cell>, w: i64, d: nat)
    ensures
        decode(w as u64) matches Val::Int(i) ==> spec_render(cells, w, d) == glyphs(decimal(i)),
        decode(w as u64) == Val::Bool(true) ==> spec_render(cells, w, d) == glyphs("true"@),
        decode(w as u64) == Val::Bool(false) ==> spec_render(cells, w, d) == glyphs("false"@),
        decode(w as u64) == Val::Nil ==> spec_render(cells, w, d) == glyphs("nil"@),
        decode(w as u64) matches Val::Char(c, _) ==> spec_render(cells, w, d) == seq![
            Glyph::Char(c),
        ],
        decode(w as u64) matches Val::Str(a) ==> spec_render(cells, w, d) == glyphs(
            str_at(cells, a).0,
        ),
        decode(w as u64) matches Val::Float(a) ==> (float_at(cells, a) matches Some(f)
            ==> spec_render(cells, w, d) == seq![Glyph::Float(f)]),
{
    if let Val::Char(c, _) = decode(w as u64) {
        glyphs_spell_the_text(seq![c]);
        assert(glyphs(seq![c]) =~= seq![Glyph::Char(c)]);
    }
}

/// The value of a hexadecimal digit.
pub open spec fn hex_value(c: char) -> int {
    if '0' <= c <= '9' {
        c as int - '0' as int
    } else {
        c as int - 'a' as int + 10
    }
}

/// A blob prints octet by octet. One that is plain printable ASCII prints as itself, save
/// for the quote and the backslash; a line end, a return and a tab by their letters; and
/// any other by its two hexadecimal digits, which spell it.
pub proof fn octets_print_by_kind(c: u8, a: Seq<u8>, b: Seq<u8>)
    ensures
        octets_text(seq![]) == Seq::<char>::empty(),
        octets_text(a + b) == octets_text(a) + octets_text(b),
        octets_text(seq![c]) == octet_text(c),
        0x20 <= c <= 0x7e && c != 34 && c != 92 ==> octet_text(c) == seq![c as char],
        c == 34 ==> octet_text(c) == seq!['\\', '"'],
        c == 92 ==> octet_text(c) == seq!['\\', '\\'],
        c == 10 ==> octet_text(c) == seq!['\\', 'n'],
        c == 13 ==> octet_text(c) == seq!['\\', 'r'],
        c == 9 ==> octet_text(c) == seq!['\\', 't'],
        (c < 0x20 || c > 0x7e) && c != 10 && c != 13 && c != 9 ==> {
            let t = octet_text(c);
            &&& t.len() == 4
            &&& t[0] == '\\'
            &&& t[1] == 'x'
            &&& 16 * hex_value(t[2]) + hex_value(t[3]) == c
        },
    decreases b.len(),
{
    reveal_strlit("\\\\");
    reveal_strlit("\\\"");
    reveal_strlit("\\n");
    reveal_strlit("\\r");
    reveal_strlit("\\t");
    reveal_strlit("\\x");
    assert(seq![c].drop_last() =~= seq![]);
    assert(octets_text(seq![c]) =~= octet_text(c)) by {
        reveal_with_fuel(octets_text, 2);
    }
    if c == 34 {
        assert(octet_text(c) =~= seq!['\\', '"']);
    } else if c == 92 {
        assert(octet_text(c) =~= seq!['\\', '\\']);
    } else if c == 10 {
        assert(octet_text(c) =~= seq!['\\', 'n']);
    } else if c == 13 {
        assert(octet_text(c) =~= seq!['\\', 'r']);
    } else if c == 9 {
        assert(octet_text(c) =~= seq!['\\', 't']);
    }
    if b.len() == 0 {
        assert(a + b =~= a);
        assert(octets_text(b) =~= seq![]);
        assert(octets_text(a) + octets_text(b) =~= octets_text(a));
    } else {
        octets_print_by_kind(c, a, b.drop_last());
        assert((a + b).drop_last() =~= a + b.drop_last());
        assert((a + b).last() == b.last());
        assert(octets_text(a + b) =~= octets_text(a) + octets_text(b));
    }
}

/// The glyphs of several texts.
pub open spec fn text_glyphs(t: Seq<Seq<char>>) -> Seq<Seq<Glyph>> {
    Seq::new(t.len(), |i: int| glyphs(t[i]))
}

/// Texts listed are the texts joined with a comma and a space.
pub proof fn lists_spell_joined_texts(t: Seq<Seq<char>>)
    ensures
        listed(text_glyphs(t)) == glyphs(joined(t, ", "@)),
    decreases t.len(),
{
    let g = text_glyphs(t);
    if t.len() == 0 {
        assert(listed(g) =~= glyphs(joined(t, ", "@)));
    } else if t.len() == 1 {
        assert(g[0] == glyphs(t[0]));
    } else {
        let less = t.drop_last();
        lists_spell_joined_texts(less);
        listed_grows(text_glyphs(less), glyphs(t.last()));
        assert(text_glyphs(less).push(glyphs(t.last())) =~= g);
        separator();
        glyphs_join(joined(less, ", "@), ", "@);
        glyphs_join(joined(less, ", "@) + ", "@, t.last());
    }
}

/// An array without floats renders as the texts of its elements joined with a comma and a
/// space between brackets, however many there are.
pub proof fn arrays_of_texts_render_joined(cells: Seq<Cell>, w: i64, d: nat, t: Seq<Seq<char>>)
    requires
        decode(w as u64) is Ptr,
        0 <= points_at(w) < cells.len(),
        cells[points_at(w)] matches Cell::Obj(Obj::Array(_)),
        d > 0,
        t.len() == cells[points_at(w)]->Obj_0->Array_0@.len(),
        forall|i: int|
            0 <= i < t.len() ==> spec_render(
                cells,
                cells[points_at(w)]->Obj_0->Array_0@[i],
                (d - 1) as nat,
            ) == glyphs(#[trigger] t[i]),
    ensures
        spec_render(cells, w, d) == glyphs("["@ + joined(t, ", "@) + "]"@),
{
    let a = cells[points_at(w)]->Obj_0->Array_0@;
    arrays_list_their_elements(cells, w, d);
    lists_spell_joined_texts(t);
    let parts = Seq::new(a.len(), |i: int| spec_render(cells, a[i], (d - 1) as nat));
    assert forall|i: int| 0 <= i < t.len() implies parts[i] == text_glyphs(t)[i] by {
        assert(spec_render(cells, a[i], (d - 1) as nat) == glyphs(t[i]));
    }
    assert(parts =~= text_glyphs(t));
    separator();
    glyphs_join("["@, joined(t, ", "@));
    glyphs_join("["@ + joined(t, ", "@), "]"@);
}

/// Values without a text of their own render as a tag that names what they are.
pub proof fn opaque_values_render_as_tags(cells: Seq<Cell>, w: i64, d: nat)
    requires
        decode(w as u64) is Ptr,
    ensures
        ({
            let i = points_at(w);
            if 0 <= i < cells.len() && cells[i] is Obj {
                let o = cells[i]->Obj_0;
                &&& o is Struct ==> spec_render(cells, w, d) == glyphs("<struct>"@)
                &&& o is Future ==> spec_render(cells, w, d) == glyphs("<future>"@)
                &&& o is Prompt ==> spec_render(cells, w, d) == glyphs("<prompt>"@)
                &&& o is Grammar ==> spec_render(cells, w, d) == glyphs("<grammar>"@)
                &&& o is Bound ==> spec_render(cells, w, d) == glyphs("<bound method>"@)
                &&& o matches Obj::Fn(f) ==> spec_render(cells, w, d) == glyphs(fn_text(f))
                &&& o matches Obj::Bytes(b) ==> spec_render(cells, w, d) == glyphs(
                    "b\""@ + octets_text(b.data@) + "\""@,
                )
                &&& o matches Obj::Handle(x) ==> spec_render(cells, w, d) == glyphs(
                    "handle<"@ + x.native_type@ + ">"@,
                )
            } else {
                spec_render(cells, w, d) == glyphs("<object>"@)
            }
        }),
{
}

/// A function's tag names its sort, and the function where it has a name that is shown.
pub proof fn functions_render_by_sort(f: FnObj)
    ensures
        f.sort is Builtin ==> (f.name matches Some(n) ==> fn_text(f) == "<builtin "@ + n@ + ">"@),
        f.sort is Type ==> (f.name matches Some(n) ==> fn_text(f) == "<type "@ + n@ + ">"@),
        f.sort is Native ==> fn_text(f) == "<native fn>"@,
        f.sort is NativeLib ==> (f.name matches Some(n) ==> fn_text(f) == "<native lib fn "@ + n@
            + ">"@),
        f.sort is NativeLib && f.name is None ==> fn_text(f) == "<native lib fn>"@,
        (f.sort is Builtin || f.sort is Type) && f.name is None ==> fn_text(f) == "<fn>"@,
{
}

/// Entries are framed one behind the other, key first.
pub proof fn entries_are_framed_in_order(e: Seq<(Seq<char>, String)>, x: (Seq<char>, String))
    ensures
        framed(seq![]) == "{"@ + "}"@,
        framed(seq![x]) == "{"@ + (debug_quoted(x.0) + ": "@ + x.1@) + "}"@,
        e.len() > 0 ==> framed(e.push(x)) == framed(e).drop_last() + ", "@ + (debug_quoted(x.0)
            + ": "@ + x.1@) + "}"@,
{
    reveal_strlit("}");
    let f = |y: (Seq<char>, String)| entry_text(y);
    let none = Seq::<(Seq<char>, String)>::empty();
    assert(none.map_values(f) =~= Seq::<Seq<char>>::empty());
    assert("{"@ + joined(Seq::<Seq<char>>::empty(), ", "@) =~= "{"@);
    assert(seq![x].map_values(f) =~= seq![entry_text(x)]);
    if e.len() > 0 {
        let m = e.map_values(f);
        let all = e.push(x).map_values(f);
        assert(all =~= m.push(entry_text(x)));
        assert(all.drop_last() =~= m);
        assert(all.last() == entry_text(x));
        assert(framed(e).drop_last() =~= "{"@ + joined(m, ", "@));
        assert(framed(e.push(x)) =~= framed(e).drop_last() + ", "@ + entry_text(x) + "}"@);
    }
}

} // verus!
