//! Coercing a model reply into the fields of a struct.
//!
//! A reply is searched for JSON first: models wrap it in prose and code fences, leave
//! keys unquoted and put separators into numbers. The fields are then taken in
//! declaration order; an absent field takes its default, and an absent field without
//! one is a failure.

use vstd::prelude::*;

use crate::coll::StructObj;
use crate::gc::Heap;
use crate::jsonf::{measure, parse, value_to_word, Json};
use crate::obj::{Cell, Obj};
use crate::string::TaggedStr;
use crate::value::JadeValue;
use crate::strf::trim;
use crate::text::{chars_of, str_ends_with, str_eq, str_starts_with, string_of_range};
#[allow(unused_imports)]
use crate::coll::{lookup, lookup_after_put, put, put_keeps_unique, unique_keys};
#[allow(unused_imports)]
use crate::gc::{counts_leave, points_at, retain_all, retained, target, word_roundtrip};
#[allow(unused_imports)]
use crate::gc::MAX_CELLS;
#[allow(unused_imports)]
use crate::jsonf::{cells_for, extends, fits_dicts, json_view, object_view};
#[allow(unused_imports)]
use crate::jsonf::{parse_error, parsed, recounted, represents, represents_in_larger};
#[allow(unused_imports)]
use crate::jsonf::{represents_recounted, same_payload, JsonV};
#[allow(unused_imports)]
use crate::value::{decode, Val};
#[allow(unused_imports)]
use crate::strf::trimmed;
#[allow(unused_imports)]
use crate::text::{ends_with_seq, starts_with_seq};
#[allow(unused_imports)]
use crate::gc::fresh_from;
#[allow(unused_imports)]
use crate::heap::ObjKind;

verus! {

// ── Characters ───────────────────────────────────────────────────────────────

/// The character is an ASCII digit.
pub open spec fn is_digit(c: char) -> bool {
    '0' <= c <= '9'
}

/// The character may begin a bare key: an ASCII letter or an underscore.
pub open spec fn is_word_start(c: char) -> bool {
    'A' <= c <= 'Z' || 'a' <= c <= 'z' || c == '_'
}

/// The character may stand in a bare key.
pub open spec fn is_word(c: char) -> bool {
    is_word_start(c) || is_digit(c)
}

fn digit(c: char) -> (r: bool)
    ensures
        r == is_digit(c),
{
    '0' <= c && c <= '9'
}

fn word_start(c: char) -> (r: bool)
    ensures
        r == is_word_start(c),
{
    ('A' <= c && c <= 'Z') || ('a' <= c && c <= 'z') || c == '_'
}

fn word_char(c: char) -> (r: bool)
    ensures
        r == is_word(c),
{
    word_start(c) || digit(c)
}

// ── Unquoted keys ────────────────────────────────────────────────────────────

/// Where the run of key characters that begins at or before `i` ends.
pub open spec fn word_end(s: Seq<char>, i: int) -> int
    decreases s.len() - i,
{
    if 0 <= i < s.len() && is_word(s[i]) {
        word_end(s, i + 1)
    } else {
        i
    }
}

/// The first position at or after `i` that holds neither a space nor a tab.
pub open spec fn past_blanks(s: Seq<char>, i: int) -> int
    decreases s.len() - i,
{
    if 0 <= i < s.len() && (s[i] == ' ' || s[i] == '\t') {
        past_blanks(s, i + 1)
    } else {
        i
    }
}

/// A word that ends at `e` is a key: blanks and one colon follow, not two.
pub open spec fn is_key(s: Seq<char>, e: int) -> bool {
    let j = past_blanks(s, e);
    j < s.len() && s[j] == ':' && (j + 1 >= s.len() || s[j + 1] != ':')
}

/// The text from position `i` on with every bare key quoted and every other character
/// kept; `quoted` says whether `i` lies inside a string. Inside a string nothing changes.
pub open spec fn keys_quoted(s: Seq<char>, i: int, quoted: bool) -> Seq<char>
    decreases s.len() - i,
{
    if i < 0 || i >= s.len() {
        seq![]
    } else if quoted && s[i] == '\\' {
        if i + 1 < s.len() {
            seq!['\\', s[i + 1]] + keys_quoted(s, i + 2, true)
        } else {
            seq!['\\']
        }
    } else if s[i] == '"' {
        seq!['"'] + keys_quoted(s, i + 1, !quoted)
    } else if !quoted && is_word_start(s[i]) {
        let e = word_end(s, i);
        let word = s.subrange(i, e);
        if e <= i || e > s.len() {
            seq![]
        } else if is_key(s, e) {
            seq!['"'] + word + seq!['"'] + keys_quoted(s, e, false)
        } else {
            word + keys_quoted(s, e, false)
        }
    } else {
        seq![s[i]] + keys_quoted(s, i + 1, quoted)
    }
}

/// A run of key characters ends within the text, and not before it begins.
proof fn word_end_beyond(s: Seq<char>, i: int)
    requires
        0 <= i <= s.len(),
    ensures
        i <= word_end(s, i) <= s.len(),
        i < s.len() && is_word(s[i]) ==> i < word_end(s, i),
    decreases s.len() - i,
{
    if i < s.len() && is_word(s[i]) {
        word_end_beyond(s, i + 1);
    }
}

/// Quote every bare key. Every other character stays as it is.
pub fn quote_keys(s: &str) -> (r: String)
    ensures
        r@ == keys_quoted(s@, 0, false),
{
    let v = chars_of(s);
    let ghost b = s@;
    let mut out = String::new();
    let mut i: usize = 0;
    let mut in_string: bool = false;
    assert(seq![] + keys_quoted(b, 0, false) =~= keys_quoted(b, 0, false));
    while i < v.len()
        invariant
            i <= b.len(),
            v@ == b,
            out@ + keys_quoted(b, i as int, in_string) == keys_quoted(b, 0, false),
        decreases b.len() - i,
    {
        let ghost before = out@;
        let c: char = v[i];
        if in_string && c == '\\' {
            out.push('\\');
            if i + 1 < v.len() {
                out.push(v[i + 1]);
                assert(out@ + keys_quoted(b, i + 2, true) =~= before + (seq!['\\', b[i + 1]]
                    + keys_quoted(b, i + 2, true)));
                i += 2;
            } else {
                assert(out@ + keys_quoted(b, i + 1, true) =~= before + seq!['\\']);
                i += 1;
            }
        } else if c == '"' {
            out.push('"');
            assert(out@ + keys_quoted(b, i + 1, !in_string) =~= before + (seq!['"'] + keys_quoted(
                b,
                i + 1,
                !in_string,
            )));
            in_string = !in_string;
            i += 1;
        } else if !in_string && word_start(c) {
            let start: usize = i;
            while i < v.len() && word_char(v[i])
                invariant
                    start <= i <= b.len(),
                    v@ == b,
                    word_end(b, i as int) == word_end(b, start as int),
                decreases b.len() - i,
            {
                i += 1;
            }
            let e: usize = i;
            assert(e == word_end(b, start as int));
            proof {
                word_end_beyond(b, start as int);
            }
            let mut j: usize = e;
            while j < v.len() && (v[j] == ' ' || v[j] == '\t')
                invariant
                    e <= j <= b.len(),
                    v@ == b,
                    past_blanks(b, j as int) == past_blanks(b, e as int),
                decreases b.len() - j,
            {
                j += 1;
            }
            assert(j == past_blanks(b, e as int));
            let key: bool = j < v.len() && v[j] == ':' && (j + 1 >= v.len() || v[j + 1] != ':');
            let word = string_of_range(v.as_slice(), start, e);
            if key {
                out.push('"');
            }
            out.append(word.as_str());
            if key {
                out.push('"');
            }
            proof {
                let rest = keys_quoted(b, e as int, false);
                if key {
                    assert(out@ + rest =~= before + (seq!['"'] + word@ + seq!['"'] + rest));
                } else {
                    assert(out@ + rest =~= before + (word@ + rest));
                }
            }
        } else {
            out.push(c);
            assert(out@ + keys_quoted(b, i + 1, in_string) =~= before + (seq![c] + keys_quoted(
                b,
                i + 1,
                in_string,
            )));
            i += 1;
        }
    }
    assert(out@ + seq![] =~= out@);
    out
}

// ── Separators in numbers ────────────────────────────────────────────────────

/// Where the first `n` characters leave off: inside a string or not, and whether a
/// backslash in a string escapes the next one.
pub open spec fn string_state(s: Seq<char>, n: int) -> (bool, bool)
    decreases n,
{
    if n <= 0 {
        (false, false)
    } else {
        let (inside, escaped) = string_state(s, n - 1);
        if escaped {
            (inside, false)
        } else if inside && s[n - 1] == '\\' {
            (true, true)
        } else if s[n - 1] == '"' {
            (!inside, false)
        } else {
            (inside, false)
        }
    }
}

/// The character at `i` is a thousands separator: a comma between two digits, outside
/// strings.
pub open spec fn is_separator(s: Seq<char>, i: int) -> bool {
    &&& s[i] == ','
    &&& 0 < i < s.len() - 1
    &&& is_digit(s[i - 1])
    &&& is_digit(s[i + 1])
    &&& !string_state(s, i).0
}

/// The first `n` characters without the separators.
pub open spec fn separators_dropped(s: Seq<char>, n: int) -> Seq<char>
    decreases n,
{
    if n <= 0 {
        seq![]
    } else if is_separator(s, n - 1) {
        separators_dropped(s, n - 1)
    } else {
        separators_dropped(s, n - 1).push(s[n - 1])
    }
}

/// Drop every comma that stands between two digits outside a string. Every other
/// character stays as it is.
pub fn strip_number_commas(s: &str) -> (r: String)
    ensures
        r@ == separators_dropped(s@, s@.len() as int),
{
    let v = chars_of(s);
    let mut out = String::new();
    let mut in_string: bool = false;
    let mut escaped: bool = false;
    let mut i: usize = 0;
    while i < v.len()
        invariant
            v@ == s@,
            i <= v@.len(),
            out@ == separators_dropped(s@, i as int),
            (in_string, escaped) == string_state(s@, i as int),
        decreases v@.len() - i,
    {
        let c: char = v[i];
        let separator: bool = !in_string && c == ',' && i > 0 && digit(v[i - 1]) && i + 1 < v.len()
            && digit(v[i + 1]);
        if !separator {
            out.push(c);
        }
        if escaped {
            escaped = false;
        } else if in_string && c == '\\' {
            escaped = true;
        } else if c == '"' {
            in_string = !in_string;
        }
        i += 1;
    }
    out
}

/// The two repairs in turn.
pub open spec fn normalized(s: Seq<char>) -> Seq<char> {
    let q = keys_quoted(s, 0, false);
    separators_dropped(q, q.len() as int)
}

/// Quote bare keys, and drop separators from numbers: the two most common mistakes.
pub fn normalize(s: &str) -> (r: String)
    ensures
        r@ == normalized(s@),
{
    let q = quote_keys(s);
    strip_number_commas(q.as_str())
}

// ── Finding the JSON ─────────────────────────────────────────────────────────

/// Where the bracket opened before position `i` closes, given how many are open there
/// and whether `i` lies inside a string: one past the closing bracket.
pub open spec fn closing(
    s: Seq<char>,
    i: int,
    depth: int,
    quoted: bool,
    open: char,
    close: char,
) -> Option<int>
    decreases s.len() + 1 - i,
{
    if i < 0 || i >= s.len() {
        None
    } else if quoted && s[i] == '\\' {
        closing(s, i + 2, depth, quoted, open, close)
    } else if s[i] == '"' {
        closing(s, i + 1, depth, !quoted, open, close)
    } else if !quoted && s[i] == open {
        closing(s, i + 1, depth + 1, quoted, open, close)
    } else if !quoted && s[i] == close {
        if depth == 1 {
            Some(i + 1)
        } else {
            closing(s, i + 1, depth - 1, quoted, open, close)
        }
    } else {
        closing(s, i + 1, depth, quoted, open, close)
    }
}

/// Where the object or array that begins at `i` ends. Only brackets of the kind that
/// opened it are counted.
pub open spec fn json_end(s: Seq<char>, i: int) -> Option<int> {
    if s[i] == '{' {
        closing(s, i, 0, false, '{', '}')
    } else {
        closing(s, i, 0, false, '[', ']')
    }
}

/// The end lies behind the start and within the text.
proof fn closing_within(s: Seq<char>, i: int, depth: int, quoted: bool, open: char, close: char)
    requires
        0 <= i,
    ensures
        closing(s, i, depth, quoted, open, close) matches Some(e) ==> i < e <= s.len(),
    decreases s.len() + 1 - i,
{
    if i < s.len() {
        closing_within(s, i + 2, depth, quoted, open, close);
        closing_within(s, i + 1, depth, !quoted, open, close);
        closing_within(s, i + 1, depth, quoted, open, close);
        closing_within(s, i + 1, depth + 1, quoted, open, close);
        closing_within(s, i + 1, depth - 1, quoted, open, close);
    }
}

/// Where the object or array that begins at `start` ends, respecting strings and
/// nesting.
pub fn find_end(s: &[char], start: usize) -> (r: Option<usize>)
    requires
        start < s@.len(),
        s@[start as int] == '{' || s@[start as int] == '[',
    ensures
        match r {
            Some(e) => json_end(s@, start as int) == Some(e as int) && start < e <= s@.len(),
            None => json_end(s@, start as int) is None,
        },
{
    let open: char = s[start];
    let close: char = if open == '{' {
        '}'
    } else {
        ']'
    };
    let mut depth: usize = 0;
    let mut in_string: bool = false;
    let mut i: usize = start;
    proof {
        closing_within(s@, start as int, 0, false, open, close);
    }
    while i < s.len()
        invariant
            start <= i,
            s@[start as int] == open,
            start < s@.len(),
            open == '{' && close == '}' || open == '[' && close == ']',
            depth <= i - start || i >= s@.len(),
            depth <= s@.len(),
            i == start ==> depth == 0 && !in_string,
            i > start ==> depth >= 1,
            closing(s@, i as int, depth as int, in_string, open, close) == json_end(
                s@,
                start as int,
            ),
            json_end(s@, start as int) matches Some(e) ==> start < e <= s@.len(),
        decreases s@.len() - i,
    {
        let c: char = s[i];
        if in_string && c == '\\' {
            if i + 1 >= s.len() {
                assert(closing(s@, i + 2, depth as int, in_string, open, close) is None);
                return None;
            }
            i += 2;
        } else if c == '"' {
            in_string = !in_string;
            i += 1;
        } else if !in_string && c == open {
            depth += 1;
            i += 1;
        } else if !in_string && c == close {
            i += 1;
            if depth == 1 {
                return Some(i);
            }
            depth -= 1;
        } else {
            i += 1;
        }
    }
    None
}

/// A reply without the code fence round it.
pub open spec fn unfenced(t: Seq<char>) -> Seq<char> {
    let body = if starts_with_seq(t, "```json"@) {
        Some(t.skip("```json"@.len() as int))
    } else if starts_with_seq(t, "```"@) {
        Some(t.skip("```"@.len() as int))
    } else {
        None
    };
    match body {
        Some(b) => if ends_with_seq(b, "```"@) {
            trimmed(b.take(b.len() - "```"@.len()))
        } else {
            t
        },
        None => t,
    }
}

/// The first object or array at or after `i` that is JSON, as it stands or repaired;
/// the whole text when there is none.
pub open spec fn first_json(t: Seq<char>, i: int) -> Seq<char>
    decreases t.len() - i,
{
    if i < 0 || i >= t.len() {
        t
    } else if t[i] == '{' || t[i] == '[' {
        match json_end(t, i) {
            Some(e) => {
                let c = t.subrange(i, e);
                if parsed(c) is Some {
                    c
                } else if parsed(normalized(c)) is Some {
                    normalized(c)
                } else {
                    first_json(t, i + 1)
                }
            },
            None => first_json(t, i + 1),
        }
    } else {
        first_json(t, i + 1)
    }
}

/// The JSON in a reply.
pub open spec fn extracted(text: Seq<char>) -> Seq<char> {
    first_json(unfenced(trimmed(text)), 0)
}

/// A reply without the code fence round it.
fn unfence(t: &str) -> (r: &str)
    ensures
        r@ == unfenced(t@),
{
    let n: usize = t.unicode_len();
    let mut from: usize = 0;
    proof {
        reveal_strlit("```json");
        reveal_strlit("```");
    }
    if str_starts_with(t, "```json") {
        from = 7;
    } else if str_starts_with(t, "```") {
        from = 3;
    }
    if from == 0 {
        return t;
    }
    let body = t.substring_char(from, n);
    assert(body@ =~= t@.skip(from as int));
    if str_ends_with(body, "```") {
        let m: usize = body.unicode_len();
        let inner = body.substring_char(0, m - 3);
        assert(inner@ =~= body@.take(m - 3));
        trim(inner)
    } else {
        t
    }
}

/// The JSON in a model reply: without white space and a code fence round it, the first
/// object or array that parses, repaired if need be; all of it when none does.
pub fn extract_json(text: &str) -> (r: String)
    ensures
        r@ == extracted(text@),
{
    let t = unfence(trim(text));
    let v = chars_of(t);
    let mut i: usize = 0;
    while i < v.len()
        invariant
            v@ == t@,
            t@ == unfenced(trimmed(text@)),
            i <= v@.len(),
            first_json(t@, i as int) == extracted(text@),
        decreases v@.len() - i,
    {
        if v[i] == '{' || v[i] == '[' {
            if let Some(e) = find_end(v.as_slice(), i) {
                let candidate = string_of_range(v.as_slice(), i, e);
                if parse(candidate.as_str()).is_ok() {
                    return candidate;
                }
                let repaired = normalize(candidate.as_str());
                if parse(repaired.as_str()).is_ok() {
                    return repaired;
                }
            }
        }
        i += 1;
    }
    t.to_owned()
}

// ── Fields ───────────────────────────────────────────────────────────────────

/// One declared field of a struct. A field without a default is required.
pub struct FieldSpec<T> {
    /// The field's name.
    pub name: String,
    /// What the field holds when the reply omits it.
    pub default: Option<T>,
}

/// Why a reply could not become a struct.
#[derive(Debug, PartialEq, Eq)]
pub enum CoerceError {
    /// The reply held no JSON that parses; the parser's message.
    NotJson(String),
    /// It parsed, but not to an object.
    NotObject,
    /// A field without a default was absent.
    MissingRequired(String),
    /// A field was present, but its value could not be converted.
    BadField {
        /// The field's name.
        name: String,
        /// What the conversion said.
        detail: String,
    },
}

/// The value of the first member with the given key.
pub open spec fn member(m: Seq<(Seq<char>, JsonV)>, k: Seq<char>) -> Option<JsonV>
    decreases m.len(),
{
    if m.len() == 0 {
        None
    } else if m[0].0 == k {
        Some(m[0].1)
    } else {
        member(m.skip(1), k)
    }
}

/// The value of the first member with the given key.
fn find_member<'a>(v: &'a Vec<(String, Json)>, key: &str) -> (r: Option<&'a Json>)
    ensures
        match r {
            Some(j) => member(json_view(Json::Object(*v))->Object_0, key@) == Some(j@),
            None => member(json_view(Json::Object(*v))->Object_0, key@) is None,
        },
{
    let ghost m = json_view(Json::Object(*v))->Object_0;
    proof {
        object_view(*v);
    }
    let mut i: usize = 0;
    assert(m.skip(0) =~= m);
    while i < v.len()
        invariant
            i <= v@.len(),
            m == json_view(Json::Object(*v))->Object_0,
            m.len() == v@.len(),
            forall|k: int| 0 <= k < v@.len() ==> m[k] == (v@[k].0@, (#[trigger] v@[k]).1@),
            member(m.skip(i as int), key@) == member(m, key@),
        decreases v@.len() - i,
    {
        assert(m.skip(i as int)[0] == m[i as int]);
        assert(v@[i as int].0@ == m[i as int].0);
        if str_eq(v[i].0.as_str(), key) {
            return Some(&v[i].1);
        }
        assert(m.skip(i as int).skip(1) =~= m.skip(i + 1));
        i += 1;
    }
    None
}

/// The conversion may answer `r` for the value `v` of the field `name`.
pub open spec fn converts<T, F: Fn(&str, &Json) -> Result<T, String>>(
    convert: F,
    name: Seq<char>,
    v: JsonV,
    r: Result<T, String>,
) -> bool {
    exists|n: &str, j: &Json|
        n@ == name && j@ == v && #[trigger] call_ensures(convert, (n, j), r)
}

/// The field took `t`: the converted member, or the default where the reply omits it.
pub open spec fn takes<T: Clone, F: Fn(&str, &Json) -> Result<T, String>>(
    convert: F,
    m: Seq<(Seq<char>, JsonV)>,
    field: FieldSpec<T>,
    t: T,
) -> bool {
    match member(m, field.name@) {
        Some(v) => converts(convert, field.name@, v, Ok(t)),
        None => field.default is Some && cloned(field.default->Some_0, t),
    }
}

/// The field can take a value.
pub open spec fn servable<T: Clone, F: Fn(&str, &Json) -> Result<T, String>>(
    convert: F,
    m: Seq<(Seq<char>, JsonV)>,
    field: FieldSpec<T>,
) -> bool {
    exists|t: T| takes(convert, m, field, t)
}

/// Every field before `k` can take a value.
pub open spec fn served<T: Clone, F: Fn(&str, &Json) -> Result<T, String>>(
    convert: F,
    m: Seq<(Seq<char>, JsonV)>,
    fields: Seq<FieldSpec<T>>,
    k: int,
) -> bool {
    forall|i: int| 0 <= i < k ==> servable(convert, m, #[trigger] fields[i])
}

/// The field `k` stops the coercion with `e`: every field before it can take a value, and
/// it is required and absent, or its value does not convert.
pub open spec fn stops<T: Clone, F: Fn(&str, &Json) -> Result<T, String>>(
    convert: F,
    m: Seq<(Seq<char>, JsonV)>,
    fields: Seq<FieldSpec<T>>,
    k: int,
    e: CoerceError,
) -> bool {
    &&& 0 <= k < fields.len()
    &&& served(convert, m, fields, k)
    &&& match e {
        CoerceError::MissingRequired(n) => {
            &&& n@ == fields[k].name@
            &&& member(m, fields[k].name@) is None
            &&& fields[k].default is None
        },
        CoerceError::BadField { name, detail } => {
            &&& name@ == fields[k].name@
            &&& member(m, fields[k].name@) is Some
            &&& converts(
                convert,
                fields[k].name@,
                member(m, fields[k].name@)->Some_0,
                Err::<T, String>(detail),
            )
        },
        _ => false,
    }
}

/// What the members of a parsed reply make of the declared fields.
pub open spec fn fields_result<T: Clone, F: Fn(&str, &Json) -> Result<T, String>>(
    convert: F,
    j: JsonV,
    fields: Seq<FieldSpec<T>>,
    r: Result<Vec<(String, T)>, CoerceError>,
) -> bool {
    match j {
        JsonV::Object(m) => match r {
            Ok(out) => {
                &&& out@.len() == fields.len()
                &&& forall|k: int|
                    0 <= k < fields.len() ==> (#[trigger] out@[k]).0@ == fields[k].name@ && takes(
                        convert,
                        m,
                        fields[k],
                        out@[k].1,
                    )
            },
            Err(e) => exists|k: int| stops(convert, m, fields, k, e),
        },
        _ => r matches Err(CoerceError::NotObject),
    }
}

/// Coerce a parsed reply into the declared fields, in declaration order. `convert` makes
/// one element from one JSON value.
pub fn coerce_tree<T, F>(json: &Json, fields: &[FieldSpec<T>], convert: F) -> (r: Result<
    Vec<(String, T)>,
    CoerceError,
>) where T: Clone, F: Fn(&str, &Json) -> Result<T, String>
    requires
        forall|n: &str, j: &Json| #[trigger] call_requires(convert, (n, j)),
    ensures
        fields_result(convert, json@, fields@, r),
{
    let obj = match json {
        Json::Object(v) => v,
        _ => {
            return Err(CoerceError::NotObject);
        },
    };
    let ghost m = json_view(*json)->Object_0;
    let mut out: Vec<(String, T)> = Vec::new();
    let mut i: usize = 0;
    while i < fields.len()
        invariant
            json@ == JsonV::Object(m),
            m == json_view(Json::Object(*obj))->Object_0,
            forall|n: &str, j: &Json| #[trigger] call_requires(convert, (n, j)),
            i <= fields@.len(),
            out@.len() == i,
            forall|k: int|
                0 <= k < i ==> (#[trigger] out@[k]).0@ == fields@[k].name@ && takes(
                    convert,
                    m,
                    fields@[k],
                    out@[k].1,
                ),
        decreases fields@.len() - i,
    {
        let f = &fields[i];
        assert(served(convert, m, fields@, i as int)) by {
            assert forall|k: int| 0 <= k < i implies servable(
                convert,
                m,
                #[trigger] fields@[k],
            ) by {
                assert(takes(convert, m, fields@[k], out@[k].1));
            }
        }
        match find_member(obj, f.name.as_str()) {
            Some(v) => match convert(f.name.as_str(), v) {
                Ok(t) => {
                    out.push((f.name.clone(), t));
                },
                Err(detail) => {
                    let e = CoerceError::BadField { name: f.name.clone(), detail };
                    assert(stops(convert, m, fields@, i as int, e));
                    return Err(e);
                },
            },
            None => match &f.default {
                Some(d) => {
                    out.push((f.name.clone(), d.clone()));
                },
                None => {
                    let e = CoerceError::MissingRequired(f.name.clone());
                    assert(stops(convert, m, fields@, i as int, e));
                    return Err(e);
                },
            },
        }
        i += 1;
    }
    Ok(out)
}

/// Coerce a model reply into the declared fields: the JSON in it is found and parsed
/// first.
pub fn coerce_fields<T, F>(text: &str, fields: &[FieldSpec<T>], convert: F) -> (r: Result<
    Vec<(String, T)>,
    CoerceError,
>) where T: Clone, F: Fn(&str, &Json) -> Result<T, String>
    requires
        forall|n: &str, j: &Json| #[trigger] call_requires(convert, (n, j)),
    ensures
        match parsed(extracted(text@)) {
            None => r matches Err(CoerceError::NotJson(e)) && e@ == parse_error(extracted(text@)),
            Some(j) => fields_result(convert, j, fields@, r),
        },
{
    let raw = extract_json(text);
    match parse(raw.as_str()) {
        Ok(j) => coerce_tree(&j, fields, convert),
        Err(e) => Err(CoerceError::NotJson(e)),
    }
}

// ── Declared types ───────────────────────────────────────────────────────────

/// A declared struct type.
pub struct TypeEntry {
    /// The type's name.
    pub name: String,
    /// Its fields, in declaration order; defaults are value words.
    pub fields: Vec<FieldSpec<i64>>,
}

/// The declared struct types of a program.
pub struct TypeTable {
    /// The types, in the order of their first field.
    pub types: Vec<TypeEntry>,
}

/// A field as mathematics: its name and its default.
pub type FieldV = (Seq<char>, Option<i64>);

/// The fields as mathematics.
pub open spec fn field_views(fields: Seq<FieldSpec<i64>>) -> Seq<FieldV> {
    fields.map_values(|f: FieldSpec<i64>| (f.name@, f.default))
}

/// The types as mathematics.
pub open spec fn type_views(types: Seq<TypeEntry>) -> Seq<(Seq<char>, Seq<FieldV>)> {
    types.map_values(|t: TypeEntry| (t.name@, field_views(t.fields@)))
}

/// The first position at or after `i` that holds the type `name`.
pub open spec fn type_from(t: Seq<(Seq<char>, Seq<FieldV>)>, name: Seq<char>, i: int) -> int
    decreases t.len() - i,
{
    if i < 0 || i >= t.len() || t[i].0 == name {
        i
    } else {
        type_from(t, name, i + 1)
    }
}

/// The fields declared for the type `name`.
pub open spec fn fields_of(t: Seq<(Seq<char>, Seq<FieldV>)>, name: Seq<char>) -> Option<
    Seq<FieldV>,
> {
    let i = type_from(t, name, 0);
    if i < t.len() {
        Some(t[i].1)
    } else {
        None
    }
}

impl View for TypeTable {
    type V = Seq<(Seq<char>, Seq<FieldV>)>;

    open spec fn view(&self) -> Self::V {
        type_views(self.types@)
    }
}

/// The search ends in range, at the name or at the end.
proof fn type_from_within(t: Seq<(Seq<char>, Seq<FieldV>)>, name: Seq<char>, i: int)
    requires
        0 <= i <= t.len(),
    ensures
        i <= type_from(t, name, i) <= t.len(),
        type_from(t, name, i) < t.len() ==> t[type_from(t, name, i)].0 == name,
    decreases t.len() - i,
{
    if i < t.len() && t[i].0 != name {
        type_from_within(t, name, i + 1);
    }
}

/// The search looks at names only.
proof fn type_from_names(
    t: Seq<(Seq<char>, Seq<FieldV>)>,
    u: Seq<(Seq<char>, Seq<FieldV>)>,
    name: Seq<char>,
    i: int,
)
    requires
        0 <= i <= t.len(),
        t.len() <= u.len(),
        forall|k: int| 0 <= k < t.len() ==> t[k].0 == (#[trigger] u[k]).0,
    ensures
        type_from(t, name, i) < t.len() ==> type_from(u, name, i) == type_from(t, name, i),
        type_from(t, name, i) == t.len() ==> type_from(u, name, i) == type_from(
            u,
            name,
            t.len() as int,
        ),
    decreases t.len() - i,
{
    if i < t.len() {
        assert(t[i].0 == u[i].0);
        if t[i].0 != name {
            type_from_names(t, u, name, i + 1);
        }
    }
}

impl TypeTable {
    /// No types.
    pub fn new() -> (t: Self)
        ensures
            t@.len() == 0,
            forall|name: Seq<char>| fields_of(t@, name) is None,
    {
        TypeTable { types: Vec::new() }
    }

    /// The position of a type.
    fn find(&self, name: &str) -> (r: Option<usize>)
        ensures
            match r {
                Some(i) => i == type_from(self@, name@, 0) && i < self@.len(),
                None => type_from(self@, name@, 0) == self@.len(),
            },
    {
        let mut i: usize = 0;
        while i < self.types.len()
            invariant
                i <= self.types@.len(),
                type_from(self@, name@, i as int) == type_from(self@, name@, 0),
            decreases self.types@.len() - i,
        {
            assert(self@[i as int].0 == self.types@[i as int].name@);
            if str_eq(self.types[i].name.as_str(), name) {
                return Some(i);
            }
            i += 1;
        }
        None
    }
}

/// Declare one field of a type, behind those declared before it. A field whose default
/// is nil is not a required field: `has_default` tells them apart.
pub fn jrt_struct_field(
    table: &mut TypeTable,
    owner: &str,
    field: &str,
    default_word: i64,
    has_default: i32,
)
    ensures
        fields_of(final(table)@, owner@) == Some(
            (match fields_of(old(table)@, owner@) {
                Some(fs) => fs,
                None => seq![],
            }).push(
                (
                    field@,
                    if has_default != 0 {
                        Some(default_word)
                    } else {
                        None
                    },
                ),
            ),
        ),
        forall|other: Seq<char>|
            other != owner@ ==> fields_of(final(table)@, other) == #[trigger] fields_of(
                old(table)@,
                other,
            ),
{
    let default: Option<i64> = if has_default != 0 {
        Some(default_word)
    } else {
        None
    };
    let entry = FieldSpec { name: field.to_owned(), default };
    let ghost before = table@;
    let ghost fv: FieldV = (field@, default);
    proof {
        type_from_within(before, owner@, 0);
    }
    match table.find(owner) {
        Some(i) => {
            let ghost fs = table.types@[i as int].fields@;
            let ghost named = table.types@[i as int].name@;
            table.types[i].fields.push(entry);
            proof {
                assert(field_views(fs.push(entry)) =~= field_views(fs).push(fv));
                assert(table@ =~= before.update(i as int, (named, before[i as int].1.push(fv))));
                assert forall|k: int| 0 <= k < before.len() implies before[k].0 == (
                #[trigger] table@[k]).0 by {}
                type_from_names(before, table@, owner@, 0);
                assert forall|other: Seq<char>| other != owner@ implies fields_of(
                    table@,
                    other,
                ) == #[trigger] fields_of(before, other) by {
                    type_from_within(before, other, 0);
                    type_from_names(before, table@, other, 0);
                }
            }
        },
        None => {
            let mut fields: Vec<FieldSpec<i64>> = Vec::new();
            fields.push(entry);
            let ghost fs = fields@;
            table.types.push(TypeEntry { name: owner.to_owned(), fields });
            proof {
                assert(field_views(fs) =~= seq![fv]);
                assert(seq![fv] =~= Seq::<FieldV>::empty().push(fv));
                assert(table@ =~= before.push((owner@, field_views(fs))));
                type_from_names(before, table@, owner@, 0);
                assert forall|other: Seq<char>| other != owner@ implies fields_of(
                    table@,
                    other,
                ) == #[trigger] fields_of(before, other) by {
                    type_from_within(before, other, 0);
                    type_from_names(before, table@, other, 0);
                    reveal_with_fuel(type_from, 2);
                }
            }
        },
    }
}

// ── Structs ──────────────────────────────────────────────────────────────────

/// The entries made by setting the first `n` fields in turn to the words `ws`.
pub open spec fn put_fields(fs: Seq<FieldV>, ws: Seq<i64>, n: nat) -> Seq<(Seq<char>, i64)>
    decreases n,
{
    if n == 0 {
        seq![]
    } else {
        put(put_fields(fs, ws, (n - 1) as nat), fs[n - 1].0, ws[n - 1])
    }
}

/// The word a field takes: one that stands for the member, in cells of its own from
/// `from` on, or the default where the reply omits it.
pub open spec fn field_word(
    cells: Seq<Cell>,
    m: Seq<(Seq<char>, JsonV)>,
    f: FieldV,
    w: i64,
    trust: u8,
    from: int,
) -> bool {
    match member(m, f.0) {
        Some(v) => represents(cells, w, v, trust, from),
        None => f.1 == Some(w),
    }
}

/// Some required field is absent.
pub open spec fn lacks_required(fs: Seq<FieldV>, m: Seq<(Seq<char>, JsonV)>) -> bool {
    exists|k: int|
        0 <= k < fs.len() && member(m, (#[trigger] fs[k]).0) is None && fs[k].1 is None
}

/// How many cells the values of the first `n` fields take.
pub open spec fn cells_of_fields(
    fs: Seq<FieldV>,
    m: Seq<(Seq<char>, JsonV)>,
    n: nat,
) -> nat
    decreases n,
{
    if n == 0 {
        0
    } else {
        cells_of_fields(fs, m, (n - 1) as nat) + match member(m, fs[n - 1].0) {
            Some(v) => cells_for(v),
            None => 0,
        }
    }
}

/// No declared field holds an object too large for a dict.
pub open spec fn fields_fit(fs: Seq<FieldV>, m: Seq<(Seq<char>, JsonV)>) -> bool {
    forall|k: int|
        0 <= k < fs.len() ==> (member(m, (#[trigger] fs[k]).0) matches Some(v) ==> fits_dicts(v))
}

/// A heap of `n` cells has room for the struct.
pub open spec fn has_room(n: nat, fs: Seq<FieldV>, m: Seq<(Seq<char>, JsonV)>) -> bool {
    n + cells_of_fields(fs, m, fs.len()) + 1 <= MAX_CELLS && fields_fit(fs, m)
}

/// The struct at `w` was built from the words `ws`: they were made in the cells `mid`,
/// each then held once more, and set in declaration order.
pub open spec fn built_from(
    before: Seq<Cell>,
    mid: Seq<Cell>,
    ws: Seq<i64>,
    after: Seq<Cell>,
    w: i64,
    name: Seq<char>,
    fs: Seq<FieldV>,
    m: Seq<(Seq<char>, JsonV)>,
    trust: u8,
) -> bool {
    &&& extends(before, mid)
    &&& fresh_from(mid, before.len() as int)
    &&& ws.len() == fs.len()
    &&& mid.len() == before.len() + cells_of_fields(fs, m, fs.len())
    &&& forall|k: int|
        0 <= k < fs.len() ==> field_word(
            mid,
            m,
            #[trigger] fs[k],
            ws[k],
            trust,
            before.len() as int + cells_of_fields(fs, m, k as nat),
        )
    &&& after.len() > 0
    &&& after.drop_last() == retain_all(mid, ws, ws.len())
    &&& points_at(w) == after.len() - 1
    &&& after.last() matches Cell::Obj(Obj::Struct(s)) && s.struct_name@ == name && s@
        == put_fields(fs, ws, fs.len()) && s.header.fresh(ObjKind::Struct)
}

/// The word `w` is the struct that the members `m` make of the type.
pub open spec fn built(
    before: Seq<Cell>,
    after: Seq<Cell>,
    w: i64,
    name: Seq<char>,
    fs: Seq<FieldV>,
    m: Seq<(Seq<char>, JsonV)>,
    trust: u8,
) -> bool {
    exists|mid: Seq<Cell>, ws: Seq<i64>|
        #[trigger] built_from(before, mid, ws, after, w, name, fs, m, trust)
}

/// Fields take no fewer cells than their first ones.
proof fn cells_of_fields_grows(
    fs: Seq<FieldV>,
    m: Seq<(Seq<char>, JsonV)>,
    n: nat,
    k: nat,
)
    requires
        n <= k,
    ensures
        cells_of_fields(fs, m, n) <= cells_of_fields(fs, m, k),
    decreases k,
{
    if n < k {
        cells_of_fields_grows(fs, m, n, (k - 1) as nat);
    }
}

/// The words of the fields, made in the heap; nothing when a required field is absent,
/// or when there is no room.
fn field_words(
    h: &mut Heap,
    obj: &Vec<(String, Json)>,
    fields: &Vec<FieldSpec<i64>>,
    trust: u8,
) -> (r: Option<Option<Vec<i64>>>)
    requires
        old(h).wf(),
        counts_leave(old(h).cells@, fields@.len() as int),
        fields@.len() < u32::MAX,
    ensures
        final(h).wf(),
        final(h).rc_on == old(h).rc_on,
        extends(old(h).cells@, final(h).cells@),
        fresh_from(final(h).cells@, old(h).cells@.len() as int),
        counts_leave(final(h).cells@, fields@.len() as int),
        ({
            let fs = field_views(fields@);
            let m = json_view(Json::Object(*obj))->Object_0;
            match r {
                Some(Some(ws)) => {
                    &&& ws@.len() == fs.len()
                    &&& final(h).cells@.len() == old(h).cells@.len() + cells_of_fields(
                        fs,
                        m,
                        fs.len(),
                    )
                    &&& forall|k: int|
                        0 <= k < fs.len() ==> field_word(
                            final(h).cells@,
                            m,
                            #[trigger] fs[k],
                            ws@[k],
                            trust,
                            old(h).cells@.len() as int + cells_of_fields(fs, m, k as nat),
                        )
                },
                Some(None) => lacks_required(fs, m),
                None => !has_room(old(h).cells@.len(), fs, m),
            }
        }),
{
    let ghost fs = field_views(fields@);
    let ghost m = json_view(Json::Object(*obj))->Object_0;
    let ghost start = h.cells@;
    let mut ws: Vec<i64> = Vec::new();
    let mut i: usize = 0;
    while i < fields.len()
        invariant
            fs == field_views(fields@),
            m == json_view(Json::Object(*obj))->Object_0,
            start == old(h).cells@,
            i <= fields@.len(),
            fields@.len() < u32::MAX,
            ws@.len() == i,
            h.wf(),
            h.rc_on == old(h).rc_on,
            extends(start, h.cells@),
            fresh_from(h.cells@, start.len() as int),
            counts_leave(h.cells@, fields@.len() as int),
            h.cells@.len() == start.len() + cells_of_fields(fs, m, i as nat),
            forall|k: int|
                0 <= k < i ==> field_word(
                    h.cells@,
                    m,
                    #[trigger] fs[k],
                    ws@[k],
                    trust,
                    start.len() as int + cells_of_fields(fs, m, k as nat),
                ),
        decreases fields@.len() - i,
    {
        let f = &fields[i];
        assert(fs[i as int] == (f.name@, f.default));
        match find_member(obj, f.name.as_str()) {
            Some(v) => {
                proof {
                    cells_of_fields_grows(fs, m, (i + 1) as nat, fs.len());
                }
                let n: u64 = match measure(v) {
                    Some(n) => n,
                    None => {
                        return None;
                    },
                };
                if n > MAX_CELLS || h.cells.len() as u64 > MAX_CELLS - n {
                    return None;
                }
                let ghost before = h.cells@;
                let ghost old_ws = ws@;
                let w: i64 = value_to_word(h, v, trust);
                ws.push(w);
                proof {
                    assert forall|k: int| 0 <= k < h.cells@.len() && #[trigger] h.cells@[k] is Obj
                        implies h.cells@[k]->Obj_0.hdr().rc + fields@.len() <= u32::MAX by {
                        if k < before.len() {
                            assert(h.cells@[k] == before[k]);
                        }
                    }
                    assert(fresh_from(h.cells@, start.len() as int)) by {
                        assert forall|k: int| start.len() <= k < before.len() implies h.cells@[k]
                            == #[trigger] before[k] by {}
                    }
                    assert forall|k: int| 0 <= k < i + 1 implies field_word(
                        h.cells@,
                        m,
                        #[trigger] fs[k],
                        ws@[k],
                        trust,
                        start.len() as int + cells_of_fields(fs, m, k as nat),
                    ) by {
                        if k < i {
                            let at = start.len() as int + cells_of_fields(fs, m, k as nat);
                            assert(field_word(before, m, fs[k], old_ws[k], trust, at));
                            if let Some(x) = member(m, fs[k].0) {
                                represents_in_larger(before, h.cells@, ws@[k], x, trust, at);
                            }
                        }
                    }
                }
            },
            None => match f.default {
                Some(d) => {
                    ws.push(d);
                },
                None => {
                    assert(lacks_required(fs, m));
                    return Some(None);
                },
            },
        }
        i += 1;
    }
    Some(Some(ws))
}

/// Holding words once more keeps everything but headers, and uses up one count each.
proof fn retain_all_keeps(cells: Seq<Cell>, ws: Seq<i64>, n: nat)
    ensures
        recounted(cells, retain_all(cells, ws, n)),
        retain_all(cells, ws, n).len() == cells.len(),
    decreases n,
{
    if n > 0 {
        retain_all_keeps(cells, ws, (n - 1) as nat);
        let before = retain_all(cells, ws, (n - 1) as nat);
        let after = retain_all(cells, ws, n);
        assert forall|i: int| 0 <= i < cells.len() implies same_payload(
            cells[i],
            #[trigger] after[i],
        ) by {
            assert(same_payload(cells[i], before[i]));
            if target(before, ws[n - 1]) == Some(i) {
                let o = before[i]->Obj_0;
                let p = cells[i]->Obj_0;
                let q = retained(o);
                assert(q == o.with_hdr(q.hdr()));
                assert(o == p || o == p.with_hdr(o.hdr()));
                assert(q == p.with_hdr(q.hdr()));
            }
        }
    }
}

/// What was there is untouched, and what was built behind it is new.
pub open spec fn left_over(before: Seq<Cell>, after: Seq<Cell>) -> bool {
    extends(before, after) && fresh_from(after, before.len() as int)
}

/// What coercing a parsed reply into a struct of the type `owner` answers and makes of
/// the cells.
pub open spec fn struct_result(
    table: Seq<(Seq<char>, Seq<FieldV>)>,
    owner: Seq<char>,
    j: Option<JsonV>,
    trust: u8,
    before: Seq<Cell>,
    after: Seq<Cell>,
    r: Option<i64>,
) -> bool {
    match (fields_of(table, owner), j) {
        (Some(fs), Some(JsonV::Object(m))) => {
            &&& r is None ==> !has_room(before.len(), fs, m) && left_over(before, after)
            &&& r matches Some(w) ==> if lacks_required(fs, m) {
                decode(w as u64) == Val::Nil && left_over(before, after)
            } else {
                built(before, after, w, owner, fs, m, trust)
            }
        },
        _ => r matches Some(w) && decode(w as u64) == Val::Nil && after == before,
    }
}

/// Coerce a parsed reply into a struct of a declared type. The answer is nil when the
/// type is not declared, the reply is not an object, or it omits a required field;
/// there is none when the heap has no room.
pub fn coerce_struct_tree(
    table: &TypeTable,
    h: &mut Heap,
    tree: &Json,
    trust: u8,
    owner: &str,
) -> (r: Option<i64>)
    requires
        old(h).wf(),
        fields_of(table@, owner@) matches Some(fs) ==> fs.len() < u32::MAX && counts_leave(
            old(h).cells@,
            fs.len() as int,
        ),
    ensures
        final(h).wf(),
        final(h).rc_on == old(h).rc_on,
        struct_result(
            table@,
            owner@,
            Some(tree@),
            trust,
            old(h).cells@,
            final(h).cells@,
            r,
        ),
{
    let v = JadeValue::nil();
    let nil: i64 = v.word();
    proof {
        word_roundtrip(v.bits);
        type_from_within(table@, owner@, 0);
    }
    let at: usize = match table.find(owner) {
        Some(i) => i,
        None => {
            return Some(nil);
        },
    };
    let fields = &table.types[at].fields;
    let ghost fs = field_views(fields@);
    assert(fields_of(table@, owner@) == Some(fs));
    let obj = match tree {
        Json::Object(v) => v,
        _ => {
            return Some(nil);
        },
    };
    let ghost m = json_view(*tree)->Object_0;
    let ghost start = h.cells@;
    let ws: Vec<i64> = match field_words(h, obj, fields, trust) {
        Some(Some(ws)) => ws,
        Some(None) => {
            return Some(nil);
        },
        None => {
            return None;
        },
    };
    proof {
        assert forall|k: int| 0 <= k < fs.len() implies !(member(m, (#[trigger] fs[k]).0) is None
            && fs[k].1 is None) by {
            assert(field_word(
                h.cells@,
                m,
                fs[k],
                ws@[k],
                trust,
                start.len() as int + cells_of_fields(fs, m, k as nat),
            ));
        }
    }
    if h.cells.len() as u64 >= MAX_CELLS {
        return None;
    }
    let ghost mid = h.cells@;
    let mut s = StructObj::new(owner);
    let mut i: usize = 0;
    assert(retain_all(mid, ws@, 0) == mid);
    while i < ws.len()
        invariant
            fs == field_views(fields@),
            i <= ws@.len(),
            ws@.len() == fields@.len(),
            fields@.len() < u32::MAX,
            h.wf(),
            h.rc_on == old(h).rc_on,
            h.cells@ == retain_all(mid, ws@, i as nat),
            h.cells@.len() == mid.len(),
            counts_leave(h.cells@, ws@.len() - i),
            s.wf(),
            s.header.fresh(ObjKind::Struct),
            s.struct_name@ == owner@,
            s@ == put_fields(fs, ws@, i as nat),
        decreases ws@.len() - i,
    {
        let w: i64 = ws[i];
        let ghost before = h.cells@;
        h.jrt_incref(w);
        s.set_field(fields[i].name.as_str(), w);
        assert(fs[i as int] == (fields@[i as int].name@, fields@[i as int].default));
        proof {
            assert forall|k: int| 0 <= k < h.cells@.len() && #[trigger] h.cells@[k] is Obj implies
                h.cells@[k]->Obj_0.hdr().rc + (ws@.len() - i - 1) <= u32::MAX by {
                assert(before[k] is Obj);
                if target(before, w) == Some(k) {
                    let o = before[k]->Obj_0;
                    assert(retained(o).hdr().rc == o.hdr().rc + 1);
                }
            }
        }
        i += 1;
    }
    let ghost held = h.cells@;
    let w: i64 = h.leak_obj(Obj::Struct(s));
    proof {
        assert(h.cells@.drop_last() =~= held);
        assert(built_from(start, mid, ws@, h.cells@, w, owner@, fs, m, trust));
    }
    Some(w)
}

/// Coerce the JSON in a reply into a struct of a declared type. The values carry the
/// reply's trust; a reply without JSON is nil too.
pub fn jrt_coerce_struct(table: &TypeTable, h: &mut Heap, json: &TaggedStr, owner: &str) -> (r:
    Option<i64>)
    requires
        old(h).wf(),
        fields_of(table@, owner@) matches Some(fs) ==> fs.len() < u32::MAX && counts_leave(
            old(h).cells@,
            fs.len() as int,
        ),
    ensures
        final(h).wf(),
        final(h).rc_on == old(h).rc_on,
        struct_result(
            table@,
            owner@,
            parsed(extracted(json.text@)),
            json.trust,
            old(h).cells@,
            final(h).cells@,
            r,
        ),
{
    let raw = extract_json(json.text.as_str());
    match parse(raw.as_str()) {
        Ok(tree) => coerce_struct_tree(table, h, &tree, json.trust, owner),
        Err(_) => {
            let v = JadeValue::nil();
            proof {
                word_roundtrip(v.bits);
            }
            Some(v.word())
        },
    }
}

/// The struct holds what the reply said: under each declared name that no later field
/// repeats stands a word for the member of that name, or the declared default.
pub proof fn coerced_fields_hold(
    before: Seq<Cell>,
    mid: Seq<Cell>,
    ws: Seq<i64>,
    after: Seq<Cell>,
    w: i64,
    name: Seq<char>,
    fs: Seq<FieldV>,
    m: Seq<(Seq<char>, JsonV)>,
    trust: u8,
    k: int,
)
    requires
        built_from(before, mid, ws, after, w, name, fs, m, trust),
        0 <= k < fs.len(),
        forall|i: int| k < i < fs.len() ==> (#[trigger] fs[i]).0 != fs[k].0,
    ensures
        field_word(
            after,
            m,
            fs[k],
            ws[k],
            trust,
            before.len() as int + cells_of_fields(fs, m, k as nat),
        ),
        lookup(after.last()->Obj_0->Struct_0@, fs[k].0) == Some(ws[k]),
{
    retain_all_keeps(mid, ws, ws.len());
    let at = before.len() as int + cells_of_fields(fs, m, k as nat);
    assert(field_word(mid, m, fs[k], ws[k], trust, at));
    if let Some(v) = member(m, fs[k].0) {
        assert(recounted(mid, after)) by {
            assert forall|i: int| 0 <= i < mid.len() implies same_payload(
                mid[i],
                #[trigger] after[i],
            ) by {
                assert(after[i] == after.drop_last()[i]);
            }
        }
        represents_recounted(mid, after, ws[k], v, trust, at);
    }
    put_fields_lookup(fs, ws, fs.len(), k);
}

/// A field set holds its word until a later one of the same name.
proof fn put_fields_lookup(fs: Seq<FieldV>, ws: Seq<i64>, n: nat, k: int)
    requires
        0 <= k < n <= fs.len(),
        fs.len() == ws.len(),
        forall|i: int| k < i < n ==> (#[trigger] fs[i]).0 != fs[k].0,
    ensures
        lookup(put_fields(fs, ws, n), fs[k].0) == Some(ws[k]),
    decreases n,
{
    put_fields_unique(fs, ws, (n - 1) as nat);
    let p = put_fields(fs, ws, (n - 1) as nat);
    lookup_after_put(p, fs[n - 1].0, ws[n - 1], fs[k].0);
    if k < n - 1 {
        put_fields_lookup(fs, ws, (n - 1) as nat, k);
    }
}

/// Fields set in turn stand under distinct names.
proof fn put_fields_unique(fs: Seq<FieldV>, ws: Seq<i64>, n: nat)
    ensures
        unique_keys(put_fields(fs, ws, n)),
    decreases n,
{
    if n > 0 {
        put_fields_unique(fs, ws, (n - 1) as nat);
        put_keeps_unique(put_fields(fs, ws, (n - 1) as nat), fs[n - 1].0, ws[n - 1]);
    }
}

// ── What is found ────────────────────────────────────────────────────────────

/// The character at `i` stands outside strings, in a text read from `from` on.
pub open spec fn outside(s: Seq<char>, from: int, i: int) -> bool {
    !string_state(s.skip(from), i - from).0
}

/// How many more brackets were opened than closed between `from` and `to`, strings left
/// out.
pub open spec fn open_brackets(s: Seq<char>, from: int, to: int, open: char, close: char) -> int
    decreases to - from,
{
    if to <= from {
        0
    } else {
        open_brackets(s, from, to - 1, open, close) + (if !outside(s, from, to - 1) {
            0int
        } else if s[to - 1] == open {
            1
        } else if s[to - 1] == close {
            -1
        } else {
            0
        })
    }
}

/// The bracket that closes one.
pub open spec fn closer(open: char) -> char {
    if open == '{' {
        '}'
    } else {
        ']'
    }
}

/// The object or array that begins at `from` ends at `e`: there its brackets are balanced,
/// and nowhere before.
pub open spec fn balanced_at(s: Seq<char>, from: int, e: int) -> bool {
    &&& from < e <= s.len()
    &&& open_brackets(s, from, e, s[from], closer(s[from])) == 0
    &&& forall|k: int|
        from < k < e ==> #[trigger] open_brackets(s, from, k, s[from], closer(s[from])) > 0
}

/// What a scan finds from a position on, given what lies behind it.
proof fn scan_balances(
    s: Seq<char>,
    from: int,
    i: int,
    depth: int,
    quoted: bool,
    open: char,
    close: char,
)
    requires
        0 <= from <= i,
        from < s.len(),
        s[from] == open,
        open == '{' && close == '}' || open == '[' && close == ']',
        i <= s.len() ==> string_state(s.skip(from), i - from) == (quoted, false),
        i <= s.len() ==> open_brackets(s, from, i, open, close) == depth,
        i == from ==> depth == 0 && !quoted,
        i > from ==> depth >= 1,
    ensures
        match closing(s, i, depth, quoted, open, close) {
            Some(e) => i < e <= s.len() && open_brackets(s, from, e, open, close) == 0 && forall|
                k: int,
            |
                i < k < e ==> #[trigger] open_brackets(s, from, k, open, close) > 0,
            None => forall|k: int|
                i < k <= s.len() ==> #[trigger] open_brackets(s, from, k, open, close) > 0,
        },
    decreases s.len() + 1 - i,
{
    if i < s.len() {
        let t = s.skip(from);
        let n = i - from;
        assert(t[n] == s[i]);
        assert(string_state(t, n + 1) == {
            let (inside, escaped) = string_state(t, n);
            if escaped {
                (inside, false)
            } else if inside && t[n] == '\\' {
                (true, true)
            } else if t[n] == '"' {
                (!inside, false)
            } else {
                (inside, false)
            }
        });
        if quoted && s[i] == '\\' {
            if i + 1 < s.len() {
                assert(string_state(t, n + 2) == (true, false));
                assert(open_brackets(s, from, i + 1, open, close) == depth);
                assert(open_brackets(s, from, i + 2, open, close) == depth);
            } else {
                assert(open_brackets(s, from, i + 1, open, close) == depth);
            }
            scan_balances(s, from, i + 2, depth, quoted, open, close);
        } else if s[i] == '"' {
            assert(open_brackets(s, from, i + 1, open, close) == depth);
            scan_balances(s, from, i + 1, depth, !quoted, open, close);
        } else if !quoted && s[i] == open {
            assert(open_brackets(s, from, i + 1, open, close) == depth + 1);
            scan_balances(s, from, i + 1, depth + 1, quoted, open, close);
        } else if !quoted && s[i] == close {
            assert(open_brackets(s, from, i + 1, open, close) == depth - 1);
            if depth != 1 {
                scan_balances(s, from, i + 1, depth - 1, quoted, open, close);
            }
        } else {
            assert(open_brackets(s, from, i + 1, open, close) == depth);
            scan_balances(s, from, i + 1, depth, quoted, open, close);
        }
    }
}

/// The end found for an object or array is where its brackets are first balanced, those
/// in strings left out; and it is found wherever there is one.
pub proof fn ends_are_balanced(s: Seq<char>, from: int, e: int)
    requires
        0 <= from < s.len(),
        s[from] == '{' || s[from] == '[',
    ensures
        json_end(s, from) == Some(e) <==> balanced_at(s, from, e),
        json_end(s, from) is None ==> !balanced_at(s, from, e),
{
    let open = s[from];
    let close = closer(open);
    scan_balances(s, from, from, 0, false, open, close);
    match json_end(s, from) {
        Some(x) => {
            assert(balanced_at(s, from, x));
            if balanced_at(s, from, e) {
                if e < x {
                    assert(open_brackets(s, from, e, open, close) > 0);
                } else if x < e {
                    assert(from < x);
                    assert(open_brackets(s, from, x, open, close) == 0);
                }
            }
        },
        None => {
            if balanced_at(s, from, e) {
                assert(open_brackets(s, from, e, open, close) > 0);
            }
        },
    }
}

/// Scanning passes what holds no bracket.
proof fn prose_is_passed(t: Seq<char>, i: int, k: int)
    requires
        0 <= i <= k <= t.len(),
        forall|j: int| i <= j < k ==> t[j] != '{' && t[j] != '[',
    ensures
        first_json(t, i) == first_json(t, k),
    decreases k - i,
{
    if i < k {
        prose_is_passed(t, i + 1, k);
    }
}

/// JSON in prose is found whole: behind a text without brackets, an object or array whose
/// brackets are balanced at its end and that parses is what is taken, whatever follows.
pub proof fn json_in_prose_is_found_whole(before: Seq<char>, json: Seq<char>, after: Seq<char>)
    requires
        !before.contains('{'),
        !before.contains('['),
        json.len() > 0,
        json[0] == '{' || json[0] == '[',
        balanced_at(before + json + after, before.len() as int, (before.len() + json.len()) as int),
    ensures
        parsed(json) is Some ==> first_json(before + json + after, 0) == json,
        parsed(json) is None && parsed(normalized(json)) is Some ==> first_json(
            before + json + after,
            0,
        ) == normalized(json),
{
    let t = before + json + after;
    let n = before.len() as int;
    let e = (before.len() + json.len()) as int;
    assert forall|j: int| 0 <= j < n implies t[j] != '{' && t[j] != '[' by {
        assert(t[j] == before[j]);
        assert(before.contains(before[j]));
    }
    prose_is_passed(t, 0, n);
    assert(t[n] == json[0]);
    ends_are_balanced(t, n, e);
    assert(t.subrange(n, e) =~= json);
}

/// A text without brackets holds no JSON, and is given back as it is.
pub proof fn prose_alone_is_kept(t: Seq<char>)
    requires
        !t.contains('{'),
        !t.contains('['),
    ensures
        first_json(t, 0) == t,
{
    assert forall|j: int| 0 <= j < t.len() implies t[j] != '{' && t[j] != '[' by {
        assert(t.contains(t[j]));
    }
    prose_is_passed(t, 0, t.len() as int);
}

/// A fence round a reply is no part of it, with or without the name of the language; a
/// text without a fence stays as it is.
pub proof fn fences_are_no_part(t: Seq<char>, inner: Seq<char>)
    ensures
        unfenced("```json"@ + inner + "```"@) == trimmed(inner),
        !starts_with_seq(inner + "```"@, "json"@) ==> unfenced("```"@ + inner + "```"@) == trimmed(
            inner,
        ),
        !starts_with_seq(t, "```"@) ==> unfenced(t) == t,
{
    reveal_strlit("```json");
    reveal_strlit("```");
    reveal_strlit("json");
    fence_comes_off("```json"@, inner);
    fence_comes_off("```"@, inner);
    assert("```json"@ =~= "```"@ + "json"@);
    longer_beginnings("```"@, "json"@, "```"@ + inner + "```"@);
    longer_beginnings("```"@, "json"@, t);
    assert(("```"@ + inner + "```"@).skip(3) =~= inner + "```"@);
}

/// A text that begins with two texts begins with the first, and its rest with the second.
proof fn longer_beginnings(a: Seq<char>, b: Seq<char>, t: Seq<char>)
    ensures
        starts_with_seq(t, a + b) ==> starts_with_seq(t, a) && starts_with_seq(
            t.skip(a.len() as int),
            b,
        ),
{
    if starts_with_seq(t, a + b) {
        let n = a.len() as int;
        let m = (a + b).len() as int;
        assert(t.subrange(0, m) == a + b);
        assert(t.subrange(0, n) =~= (a + b).subrange(0, n));
        assert((a + b).subrange(0, n) =~= a);
        assert(t.skip(n).subrange(0, b.len() as int) =~= (a + b).subrange(n, m));
        assert((a + b).subrange(n, m) =~= b);
    }
}

/// What is left between a fence and its end.
proof fn fence_comes_off(fence: Seq<char>, inner: Seq<char>)
    ensures
        ({
            let t = fence + inner + "```"@;
            let b = t.skip(fence.len() as int);
            &&& starts_with_seq(t, fence)
            &&& ends_with_seq(b, "```"@)
            &&& b.take(b.len() - "```"@.len()) == inner
        }),
{
    let t = fence + inner + "```"@;
    let b = t.skip(fence.len() as int);
    assert(t.subrange(0, fence.len() as int) =~= fence);
    assert(b =~= inner + "```"@);
    assert(b.subrange(inner.len() as int, b.len() as int) =~= "```"@);
    assert(b.take(b.len() - "```"@.len()) =~= inner);
}

/// Text without strings, and the first quote in it, are outside strings; what follows the
/// quote is inside up to the next one that no backslash escapes.
pub proof fn strings_run_between_quotes(s: Seq<char>, n: int)
    requires
        0 <= n < s.len(),
    ensures
        string_state(s, 0) == (false, false),
        ({
            let (inside, escaped) = string_state(s, n);
            let (inside_next, escaped_next) = string_state(s, n + 1);
            &&& inside_next != inside <==> s[n] == '"' && !escaped
            &&& escaped_next <==> inside && !escaped && s[n] == '\\'
        }),
{
    escapes_are_inside(s, n);
}

/// Only inside a string does a backslash escape.
proof fn escapes_are_inside(s: Seq<char>, n: int)
    ensures
        string_state(s, n).1 ==> string_state(s, n).0,
    decreases n,
{
    if n > 0 {
        escapes_are_inside(s, n - 1);
    }
}

/// A text without its quotes.
pub open spec fn unquoted(s: Seq<char>) -> Seq<char> {
    s.filter(|c: char| c != '"')
}

/// A text without its commas.
pub open spec fn without_commas(s: Seq<char>) -> Seq<char> {
    s.filter(|c: char| c != ',')
}

/// Quoting keys adds quotes and nothing else: without quotes, the text is what it was.
pub proof fn quoting_adds_only_quotes(s: Seq<char>, i: int, quoted: bool)
    requires
        0 <= i <= s.len(),
    ensures
        unquoted(keys_quoted(s, i, quoted)) == unquoted(s.skip(i)),
    decreases s.len() - i,
{
    let f = |c: char| c != '"';
    if i >= s.len() {
        assert(s.skip(i) =~= seq![]);
        assert(keys_quoted(s, i, quoted) =~= seq![]);
    } else if quoted && s[i] == '\\' {
        if i + 1 < s.len() {
            quoting_adds_only_quotes(s, i + 2, true);
            assert(s.skip(i) =~= seq!['\\', s[i + 1]] + s.skip(i + 2));
            filter_parts(seq!['\\', s[i + 1]], s.skip(i + 2), keys_quoted(s, i + 2, true), f);
        } else {
            assert(s.skip(i) =~= seq!['\\']);
        }
    } else if s[i] == '"' {
        quoting_adds_only_quotes(s, i + 1, !quoted);
        assert(s.skip(i) =~= seq!['"'] + s.skip(i + 1));
        filter_parts(seq!['"'], s.skip(i + 1), keys_quoted(s, i + 1, !quoted), f);
    } else if !quoted && is_word_start(s[i]) {
        word_end_beyond(s, i);
        let e = word_end(s, i);
        let word = s.subrange(i, e);
        let rest = keys_quoted(s, e, false);
        quoting_adds_only_quotes(s, e, false);
        assert(s.skip(i) =~= word + s.skip(e));
        filter_parts(word, s.skip(e), rest, f);
        if is_key(s, e) {
            quotes_vanish(word, rest);
        }
    } else {
        quoting_adds_only_quotes(s, i + 1, quoted);
        assert(s.skip(i) =~= seq![s[i]] + s.skip(i + 1));
        filter_parts(seq![s[i]], s.skip(i + 1), keys_quoted(s, i + 1, quoted), f);
    }
}

/// Quotes round a word go with the quotes.
proof fn quotes_vanish(word: Seq<char>, rest: Seq<char>)
    ensures
        unquoted(seq!['"'] + word + seq!['"'] + rest) == unquoted(word + rest),
{
    let f = |c: char| c != '"';
    let q = seq!['"'];
    assert(q.filter(f) =~= seq![]) by {
        reveal(Seq::filter);
        assert(q.drop_last() =~= seq![]);
        assert(q.drop_last().filter(f) =~= seq![]);
    }
    Seq::filter_distributes_over_add(q + word + q, rest, f);
    Seq::filter_distributes_over_add(q + word, q, f);
    Seq::filter_distributes_over_add(q, word, f);
    Seq::filter_distributes_over_add(word, rest, f);
    assert((q + word + q).filter(f) =~= word.filter(f));
}

/// Filtering two texts with one beginning comes to the same where their rests do.
proof fn filter_parts(a: Seq<char>, b: Seq<char>, c: Seq<char>, f: spec_fn(char) -> bool)
    requires
        b.filter(f) == c.filter(f),
    ensures
        (a + b).filter(f) == (a + c).filter(f),
{
    Seq::filter_distributes_over_add(a, b, f);
    Seq::filter_distributes_over_add(a, c, f);
}

/// A bare word that a single colon follows, blanks allowed, is a key and is quoted; what
/// lies behind it is looked at anew. A word that no colon follows, or two, is left bare.
pub proof fn bare_keys_are_quoted(word: Seq<char>, blanks: Seq<char>, rest: Seq<char>)
    requires
        word.len() > 0,
        is_word_start(word[0]),
        forall|i: int| 0 <= i < word.len() ==> is_word(#[trigger] word[i]),
        forall|i: int| 0 <= i < blanks.len() ==> #[trigger] blanks[i] == ' ' || blanks[i] == '\t',
        rest.len() > 0,
        blanks.len() == 0 ==> !is_word(rest[0]),
        rest[0] != ' ' && rest[0] != '\t',
    ensures
        ({
            let s = word + blanks + rest;
            let behind = keys_quoted(s, word.len() as int, false);
            let key = rest[0] == ':' && (rest.len() == 1 || rest[1] != ':');
            keys_quoted(s, 0, false) == if key {
                seq!['"'] + word + seq!['"'] + behind
            } else {
                word + behind
            }
        }),
{
    let s = word + blanks + rest;
    let n = word.len() as int;
    let m = n + blanks.len();
    assert(s[0] == word[0]);
    assert forall|i: int| 0 <= i < n implies is_word(#[trigger] s[i]) by {
        assert(s[i] == word[i]);
    }
    assert(!is_word(s[n])) by {
        if blanks.len() > 0 {
            assert(s[n] == blanks[0]);
        } else {
            assert(s[n] == rest[0]);
        }
    }
    word_runs(s, 0, n);
    assert forall|i: int| n <= i < m implies s[i] == ' ' || s[i] == '\t' by {
        assert(s[i] == blanks[i - n]);
    }
    assert(s[m] == rest[0]);
    blanks_run(s, n, m);
    if rest.len() > 1 {
        assert(s[m + 1] == rest[1]);
    }
    assert(s.subrange(0, n) =~= word);
}

/// Where a word ends.
proof fn word_runs(s: Seq<char>, i: int, n: int)
    requires
        0 <= i <= n < s.len(),
        forall|k: int| i <= k < n ==> is_word(#[trigger] s[k]),
        !is_word(s[n]),
    ensures
        word_end(s, i) == n,
    decreases n - i,
{
    if i < n {
        word_runs(s, i + 1, n);
    }
}

/// Where blanks end.
proof fn blanks_run(s: Seq<char>, i: int, n: int)
    requires
        0 <= i <= n < s.len(),
        forall|k: int| i <= k < n ==> s[k] == ' ' || s[k] == '\t',
        s[n] != ' ' && s[n] != '\t',
    ensures
        past_blanks(s, i) == n,
    decreases n - i,
{
    if i < n {
        blanks_run(s, i + 1, n);
    }
}

/// A string is copied as it is, brackets and colons in it too, up to its closing quote.
pub proof fn strings_are_not_repaired(s: Seq<char>, i: int, k: int)
    requires
        0 <= i <= k < s.len(),
        s[k] == '"',
        forall|j: int| i <= j < k ==> s[j] != '"' && s[j] != '\\',
    ensures
        keys_quoted(s, i, true) == s.subrange(i, k + 1) + keys_quoted(s, k + 1, false),
    decreases k - i,
{
    if i < k {
        strings_are_not_repaired(s, i + 1, k);
        assert(s.subrange(i, k + 1) =~= seq![s[i]] + s.subrange(i + 1, k + 1));
        assert(keys_quoted(s, i, true) =~= s.subrange(i, k + 1) + keys_quoted(s, k + 1, false));
    } else {
        assert(s.subrange(i, k + 1) =~= seq!['"']);
    }
}

/// Dropping separators takes commas and nothing else: without commas, the text is what it
/// was.
pub proof fn dropping_takes_only_commas(s: Seq<char>, n: int)
    requires
        0 <= n <= s.len(),
    ensures
        without_commas(separators_dropped(s, n)) == without_commas(s.take(n)),
    decreases n,
{
    reveal(Seq::filter);
    if n > 0 {
        dropping_takes_only_commas(s, n - 1);
        assert(s.take(n).drop_last() =~= s.take(n - 1));
        let d = separators_dropped(s, n - 1);
        assert(d.push(s[n - 1]).drop_last() =~= d);
    } else {
        assert(s.take(0) =~= seq![]);
    }
}

/// A comma goes exactly where a digit stands on either side of it and no string holds it;
/// any other character stays.
pub proof fn only_commas_in_numbers_go(s: Seq<char>, n: int)
    requires
        0 < n <= s.len(),
    ensures
        ({
            let gone = s[n - 1] == ',' && 1 < n < s.len() && '0' <= s[n - 2] <= '9' && '0' <= s[n]
                <= '9' && !string_state(s, n - 1).0;
            separators_dropped(s, n) == if gone {
                separators_dropped(s, n - 1)
            } else {
                separators_dropped(s, n - 1).push(s[n - 1])
            }
        }),
{
}

/// A key is made of ASCII letters, digits and underscores, and does not begin with a digit.
pub proof fn keys_are_identifiers(c: char)
    ensures
        is_word_start(c) <==> 'a' <= c <= 'z' || 'A' <= c <= 'Z' || c == '_',
        is_word(c) <==> is_word_start(c) || '0' <= c <= '9',
{
}

/// A reply's member is the first with its name.
pub proof fn members_are_found_by_name(m: Seq<(Seq<char>, JsonV)>, k: Seq<char>, i: int)
    requires
        0 <= i < m.len(),
        m[i].0 == k,
        forall|j: int| 0 <= j < i ==> (#[trigger] m[j]).0 != k,
    ensures
        member(m, k) == Some(m[i].1),
    decreases m.len(),
{
    if i > 0 {
        let r = m.skip(1);
        assert forall|j: int| 0 <= j < i - 1 implies (#[trigger] r[j]).0 != k by {
            assert(m[j + 1].0 != k);
        }
        assert(m[0].0 != k);
        members_are_found_by_name(r, k, i - 1);
    }
}

/// A name that no member has finds none.
pub proof fn absent_members_are_not_found(m: Seq<(Seq<char>, JsonV)>, k: Seq<char>)
    requires
        forall|j: int| 0 <= j < m.len() ==> (#[trigger] m[j]).0 != k,
    ensures
        member(m, k) is None,
    decreases m.len(),
{
    if m.len() > 0 {
        let r = m.skip(1);
        assert forall|j: int| 0 <= j < r.len() implies (#[trigger] r[j]).0 != k by {
            assert(m[j + 1].0 != k);
        }
        absent_members_are_not_found(r, k);
    }
}

/// What begins like JSON and is none, as it stands or repaired, is passed over, and the
/// search goes on behind its first character.
pub proof fn the_search_goes_on(t: Seq<char>, i: int)
    requires
        0 <= i < t.len(),
        t[i] == '{' || t[i] == '[' ==> (json_end(t, i) matches Some(e) ==> parsed(t.subrange(i, e))
            is None && parsed(normalized(t.subrange(i, e))) is None),
    ensures
        first_json(t, i) == first_json(t, i + 1),
        first_json(t, t.len() as int) == t,
{
}

/// A reply with one JSON text in it, and white space around the whole, comes down to that
/// text: as it stands where it parses, and repaired where only that does.
pub proof fn replies_come_down_to_their_json(
    v: Seq<char>,
    before: Seq<char>,
    json: Seq<char>,
    after: Seq<char>,
    w: Seq<char>,
)
    requires
        forall|i: int| 0 <= i < v.len() ==> crate::strf::is_white(#[trigger] v[i]),
        forall|i: int| 0 <= i < w.len() ==> crate::strf::is_white(#[trigger] w[i]),
        !before.contains('{'),
        !before.contains('['),
        json.len() > 0,
        json[0] == '{' || json[0] == '[',
        balanced_at(before + json + after, before.len() as int, (before.len() + json.len()) as int),
        !crate::strf::is_white((before + json + after)[0]),
        !crate::strf::is_white((before + json + after).last()),
        !starts_with_seq(before + json + after, "```"@),
    ensures
        parsed(json) is Some ==> extracted(v + (before + json + after) + w) == json,
        parsed(json) is None && parsed(normalized(json)) is Some ==> extracted(
            v + (before + json + after) + w,
        ) == normalized(json),
{
    let body = before + json + after;
    crate::strf::trimming_takes_the_white_ends(v, body, w);
    fences_are_no_part(body, body);
    json_in_prose_is_found_whole(before, json, after);
}

/// A type is the first one with its name.
pub proof fn types_are_found_by_name(t: Seq<(Seq<char>, Seq<FieldV>)>, name: Seq<char>, k: int)
    requires
        0 <= k <= t.len(),
        k < t.len() ==> t[k].0 == name,
        forall|j: int| 0 <= j < k ==> (#[trigger] t[j]).0 != name,
    ensures
        k < t.len() ==> fields_of(t, name) == Some(t[k].1),
        k == t.len() ==> fields_of(t, name) is None,
{
    types_from(t, name, 0, k);
}

/// The search for a type ends at the first with the name.
proof fn types_from(t: Seq<(Seq<char>, Seq<FieldV>)>, name: Seq<char>, i: int, k: int)
    requires
        0 <= i <= k <= t.len(),
        k < t.len() ==> t[k].0 == name,
        forall|j: int| 0 <= j < k ==> (#[trigger] t[j]).0 != name,
    ensures
        type_from(t, name, i) == k,
    decreases k - i,
{
    if i < k {
        assert(t[i].0 != name);
        types_from(t, name, i + 1, k);
    }
}

/// A member that is there is what a field takes, whatever its default; the default is for
/// a member that is not, and a field without either is refused.
pub proof fn members_come_before_defaults(
    cells: Seq<Cell>,
    m: Seq<(Seq<char>, JsonV)>,
    f: FieldV,
    w: i64,
    trust: u8,
    from: int,
    i: int,
)
    requires
        field_word(cells, m, f, w, trust, from),
    ensures
        0 <= i < m.len() && m[i].0 == f.0 && (forall|j: int|
            0 <= j < i ==> (#[trigger] m[j]).0 != f.0) ==> represents(
            cells,
            w,
            m[i].1,
            trust,
            from,
        ),
        (forall|j: int| 0 <= j < m.len() ==> (#[trigger] m[j]).0 != f.0) ==> f.1 == Some(w),
{
    if 0 <= i < m.len() && m[i].0 == f.0 && (forall|j: int|
        0 <= j < i ==> (#[trigger] m[j]).0 != f.0) {
        members_are_found_by_name(m, f.0, i);
    }
    if forall|j: int| 0 <= j < m.len() ==> (#[trigger] m[j]).0 != f.0 {
        absent_members_are_not_found(m, f.0);
    }
}

/// A reply is coerced to a struct where the type is known, the reply is an object and no
/// required field is missing; else it is nil.
pub proof fn replies_without_their_fields_are_nil(
    table: Seq<(Seq<char>, Seq<FieldV>)>,
    owner: Seq<char>,
    j: Option<JsonV>,
    trust: u8,
    before: Seq<Cell>,
    after: Seq<Cell>,
    w: i64,
    k: int,
)
    requires
        struct_result(table, owner, j, trust, before, after, Some(w)),
    ensures
        !(j matches Some(JsonV::Object(_))) || fields_of(table, owner) is None ==> decode(w as u64)
            == Val::Nil && after == before,
        fields_of(table, owner) matches Some(fs) ==> (j matches Some(JsonV::Object(m)) ==> {
            &&& 0 <= k < fs.len() && member(m, fs[k].0) is None && fs[k].1 is None ==> decode(
                w as u64,
            ) == Val::Nil
            &&& (forall|i: int|
                0 <= i < fs.len() ==> member(m, (#[trigger] fs[i]).0) is Some || fs[i].1 is Some)
                ==> built(before, after, w, owner, fs, m, trust)
        }),
{
    if let Some(fs) = fields_of(table, owner) {
        if let Some(JsonV::Object(m)) = j {
            if 0 <= k < fs.len() && member(m, fs[k].0) is None && fs[k].1 is None {
                assert(lacks_required(fs, m));
            }
        }
    }
}

} // verus!
