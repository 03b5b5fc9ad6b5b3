//! The `path.*` operations: Unix paths, as text. Nothing here looks at the disk.

use vstd::prelude::*;

use crate::cstr::{borrow, emit_str};
use crate::string::{trust_of, TaggedStr};
use crate::text::{chars_of, join as join_texts, str_eq, string_of_range};
use crate::trust::combine;
#[allow(unused_imports)]
use crate::cstr::{emits, text_or_empty, trust_or_trusted};
#[allow(unused_imports)]
use crate::text::{joined, texts};
#[allow(unused_imports)]
use crate::trust::spec_combine;

verus! {

// ── Joining ──────────────────────────────────────────────────────────────────

/// The path begins at the root.
pub open spec fn rooted(p: Seq<char>) -> bool {
    p.len() > 0 && p[0] == '/'
}

/// `p` behind `base`: an absolute `p` replaces it, and one separator parts the two.
pub open spec fn pushed(base: Seq<char>, p: Seq<char>) -> Seq<char> {
    if rooted(p) {
        p
    } else if base.len() == 0 || base.last() == '/' {
        base + p
    } else {
        base.push('/') + p
    }
}

/// The segments, one behind the other.
pub open spec fn joined_path(segments: Seq<Seq<char>>) -> Seq<char>
    decreases segments.len(),
{
    if segments.len() == 0 {
        seq![]
    } else if segments.len() == 1 {
        segments[0]
    } else {
        pushed(joined_path(segments.drop_last()), segments.last())
    }
}

/// The texts of borrowed segments.
pub open spec fn seg_texts(s: Seq<&str>) -> Seq<Seq<char>> {
    Seq::new(s.len(), |i: int| s[i]@)
}

/// `path.is_abs(p)`: whether the path begins at the root.
pub fn is_abs(p: &str) -> (r: bool)
    ensures
        r == rooted(p@),
{
    p.unicode_len() > 0 && p.get_char(0) == '/'
}

/// `p` behind `base`.
pub fn push_path(base: &str, p: &str) -> (r: String)
    ensures
        r@ == pushed(base@, p@),
{
    if is_abs(p) {
        return p.to_owned();
    }
    let n: usize = base.unicode_len();
    let mut out = base.to_owned();
    if n > 0 && base.get_char(n - 1) != '/' {
        out.push('/');
    }
    out.append(p);
    out
}

/// `path.join(segments...)`: an absolute later segment replaces what came before.
pub fn join(segments: &[&str]) -> (r: String)
    requires
        segments@.len() > 0,
    ensures
        r@ == joined_path(seg_texts(segments@)),
{
    let mut out = segments[0].to_owned();
    let mut i: usize = 1;
    let ghost t = seg_texts(segments@);
    assert(t.take(1) =~= seq![segments@[0]@]);
    while i < segments.len()
        invariant
            1 <= i <= segments@.len(),
            t == seg_texts(segments@),
            out@ == joined_path(t.take(i as int)),
        decreases segments@.len() - i,
    {
        out = push_path(out.as_str(), segments[i]);
        assert(t.take(i + 1).drop_last() =~= t.take(i as int));
        i += 1;
    }
    assert(t.take(i as int) =~= t);
    out
}

// ── The last part ────────────────────────────────────────────────────────────

/// Where the text ends when separators and `.` parts at the end of the first `e`
/// characters are left out. The root, and a `.` that begins a path, stay.
pub open spec fn trimmed_end(p: Seq<char>, e: int) -> int
    decreases e,
{
    if e > 1 && e <= p.len() && (p[e - 1] == '/' || p[e - 1] == '.' && p[e - 2] == '/') {
        trimmed_end(p, e - 1)
    } else {
        e
    }
}

/// Where the part that ends at `e` begins: behind the last separator before it.
pub open spec fn part_start(p: Seq<char>, e: int) -> int
    decreases e,
{
    if e > 0 && e <= p.len() && p[e - 1] != '/' {
        part_start(p, e - 1)
    } else {
        e
    }
}

/// The last part of a path.
pub open spec fn last_part(p: Seq<char>) -> Seq<char> {
    let e = trimmed_end(p, p.len() as int);
    p.subrange(part_start(p, e), e)
}

/// The name a path ends in, if it ends in one: not the root, nor `.` or `..`.
pub open spec fn file_name(p: Seq<char>) -> Option<Seq<char>> {
    let name = last_part(p);
    if name.len() == 0 || name == "."@ || name == ".."@ {
        None
    } else {
        Some(name)
    }
}

/// The path without its last part; nothing when it has none.
pub open spec fn parent_path(p: Seq<char>) -> Option<Seq<char>> {
    let name = last_part(p);
    if name.len() == 0 {
        None
    } else if name == "."@ {
        Some(seq![])
    } else {
        let s = part_start(p, trimmed_end(p, p.len() as int));
        Some(p.take(trimmed_end(p, s)))
    }
}

/// The index of the last dot before `n`, or -1.
pub open spec fn dot_before(name: Seq<char>, n: int) -> int
    decreases n,
{
    if n <= 0 || n > name.len() {
        -1int
    } else if name[n - 1] == '.' {
        n - 1
    } else {
        dot_before(name, n - 1)
    }
}

/// A file name in two: what stands before its last dot and behind it. A name without a
/// dot has no extension, nor has one whose only dot begins it.
pub open spec fn split_ext(name: Seq<char>) -> (Seq<char>, Option<Seq<char>>) {
    let d = dot_before(name, name.len() as int);
    if d <= 0 {
        (name, None)
    } else {
        (name.take(d), Some(name.skip(d + 1)))
    }
}

/// An end stays within the text.
pub proof fn trimmed_end_within(p: Seq<char>, e: int)
    requires
        0 <= e <= p.len(),
    ensures
        0 <= trimmed_end(p, e) <= e,
    decreases e,
{
    if e > 1 && (p[e - 1] == '/' || p[e - 1] == '.' && p[e - 2] == '/') {
        trimmed_end_within(p, e - 1);
    }
}

/// A part begins before it ends.
pub proof fn part_start_within(p: Seq<char>, e: int)
    requires
        0 <= e <= p.len(),
    ensures
        0 <= part_start(p, e) <= e,
    decreases e,
{
    if e > 0 && p[e - 1] != '/' {
        part_start_within(p, e - 1);
    }
}

/// Where the text ends without separators and `.` parts.
fn trim_end(p: &[char], e: usize) -> (r: usize)
    requires
        e <= p@.len(),
    ensures
        r == trimmed_end(p@, e as int),
        r <= e,
{
    let mut n: usize = e;
    while n > 1 && (p[n - 1] == '/' || p[n - 1] == '.' && p[n - 2] == '/')
        invariant
            n <= e <= p@.len(),
            trimmed_end(p@, n as int) == trimmed_end(p@, e as int),
        decreases n,
    {
        n -= 1;
    }
    n
}

/// Where the part that ends at `e` begins.
fn start_of(p: &[char], e: usize) -> (r: usize)
    requires
        e <= p@.len(),
    ensures
        r == part_start(p@, e as int),
        r <= e,
{
    let mut n: usize = e;
    while n > 0 && p[n - 1] != '/'
        invariant
            n <= e <= p@.len(),
            part_start(p@, n as int) == part_start(p@, e as int),
        decreases n,
    {
        n -= 1;
    }
    n
}

/// The name a path ends in.
pub fn name_of(p: &str) -> (r: Option<String>)
    ensures
        match r {
            Some(s) => file_name(p@) == Some(s@),
            None => file_name(p@) is None,
        },
{
    let v = chars_of(p);
    let e: usize = trim_end(v.as_slice(), v.len());
    let s: usize = start_of(v.as_slice(), e);
    let name = string_of_range(v.as_slice(), s, e);
    if s == e || str_eq(name.as_str(), ".") || str_eq(name.as_str(), "..") {
        return None;
    }
    Some(name)
}

/// The path without its last part.
pub fn parent_of(p: &str) -> (r: Option<String>)
    ensures
        match r {
            Some(s) => parent_path(p@) == Some(s@),
            None => parent_path(p@) is None,
        },
{
    let v = chars_of(p);
    let e: usize = trim_end(v.as_slice(), v.len());
    let s: usize = start_of(v.as_slice(), e);
    if s == e {
        return None;
    }
    let name = string_of_range(v.as_slice(), s, e);
    if str_eq(name.as_str(), ".") {
        return Some(String::new());
    }
    let t: usize = trim_end(v.as_slice(), s);
    let r = string_of_range(v.as_slice(), 0, t);
    assert(r@ =~= p@.take(t as int));
    Some(r)
}

/// The last part of a path, or nothing.
pub open spec fn base_name(p: Seq<char>) -> Seq<char> {
    match file_name(p) {
        Some(n) => n,
        None => seq![],
    }
}

/// `path.basename(p)`: the final name, or nothing.
pub fn basename(p: &str) -> (r: String)
    ensures
        r@ == base_name(p@),
{
    match name_of(p) {
        Some(n) => n,
        None => String::new(),
    }
}

/// What `path.dirname` answers.
pub open spec fn dir_name(p: Seq<char>) -> Seq<char> {
    match parent_path(p) {
        Some(d) => if d.len() == 0 {
            "."@
        } else {
            d
        },
        None => "."@,
    }
}

/// `path.dirname(p)`: the parent directory, `.` for a bare name.
pub fn dirname(p: &str) -> (r: String)
    ensures
        r@ == dir_name(p@),
{
    match parent_of(p) {
        Some(d) => if d.as_str().is_empty() {
            ".".to_owned()
        } else {
            d
        },
        None => ".".to_owned(),
    }
}

/// A file name in two, before its last dot and behind it.
pub fn split_name(name: &str) -> (r: (String, Option<String>))
    ensures
        r.0@ == split_ext(name@).0,
        match r.1 {
            Some(e) => split_ext(name@).1 == Some(e@),
            None => split_ext(name@).1 is None,
        },
{
    let v = chars_of(name);
    let mut n: usize = v.len();
    while n > 0 && v[n - 1] != '.'
        invariant
            n <= v@.len(),
            v@ == name@,
            dot_before(name@, n as int) == dot_before(name@, name@.len() as int),
        decreases n,
    {
        n -= 1;
    }
    if n <= 1 {
        return (name.to_owned(), None);
    }
    let stem = string_of_range(v.as_slice(), 0, n - 1);
    let ext = string_of_range(v.as_slice(), n, v.len());
    assert(stem@ =~= name@.take(n - 1));
    assert(ext@ =~= name@.skip(n as int));
    (stem, Some(ext))
}

/// The extension of a path, with its dot.
pub open spec fn extension(p: Seq<char>) -> Option<Seq<char>> {
    match file_name(p) {
        Some(n) => match split_ext(n).1 {
            Some(e) => Some("."@ + e),
            None => None,
        },
        None => None,
    }
}

/// `path.ext(p)`: the extension with its dot, if there is one.
pub fn ext(p: &str) -> (r: Option<String>)
    ensures
        match extension(p@) {
            Some(e) => r matches Some(s) && s@ == e,
            None => r is None,
        },
{
    let name = match name_of(p) {
        Some(n) => n,
        None => {
            return None;
        },
    };
    match split_name(name.as_str()).1 {
        Some(e) => {
            let mut s = ".".to_owned();
            s.append(e.as_str());
            Some(s)
        },
        None => None,
    }
}

/// The last part of a path without its extension, or nothing.
pub open spec fn stem_name(p: Seq<char>) -> Seq<char> {
    match file_name(p) {
        Some(n) => split_ext(n).0,
        None => seq![],
    }
}

/// `path.stem(p)`: the final name without its extension, or nothing.
pub fn stem(p: &str) -> (r: String)
    ensures
        r@ == stem_name(p@),
{
    match name_of(p) {
        Some(n) => split_name(n.as_str()).0,
        None => String::new(),
    }
}

// ── Absolute paths ───────────────────────────────────────────────────────────

/// The first separator at or behind `i`, or the end.
pub open spec fn next_sep(p: Seq<char>, i: int) -> int
    decreases p.len() - i,
{
    if 0 <= i < p.len() && p[i] != '/' {
        next_sep(p, i + 1)
    } else {
        i
    }
}

/// A separator lies at or behind where the search began.
pub proof fn next_sep_within(p: Seq<char>, i: int)
    requires
        0 <= i <= p.len(),
    ensures
        i <= next_sep(p, i) <= p.len(),
    decreases p.len() - i,
{
    if i < p.len() && p[i] != '/' {
        next_sep_within(p, i + 1);
    }
}

/// What a part does to the parts before it: `..` takes the last one off, an empty part
/// and `.` do nothing, and any other is put behind them.
pub open spec fn stepped(parts: Seq<Seq<char>>, part: Seq<char>) -> Seq<Seq<char>> {
    if part.len() == 0 || part == "."@ {
        parts
    } else if part == ".."@ {
        if parts.len() > 0 {
            parts.drop_last()
        } else {
            parts
        }
    } else {
        parts.push(part)
    }
}

/// The parts that `p`, from index `i` on, leads to from `parts`.
pub open spec fn walked(parts: Seq<Seq<char>>, p: Seq<char>, i: int) -> Seq<Seq<char>>
    decreases p.len() + 1 - i,
    when 0 <= i
{
    if i >= p.len() {
        parts
    } else {
        let e = next_sep(p, i);
        proof {
            next_sep_within(p, i);
        }
        walked(stepped(parts, p.subrange(i, e)), p, e + 1)
    }
}

/// The path begins with exactly two separators, which is a root of its own.
pub open spec fn double_rooted(p: Seq<char>) -> bool {
    p.len() >= 2 && p[0] == '/' && p[1] == '/' && !(p.len() > 2 && p[2] == '/')
}

/// The absolute path of `p` for the directory `cwd`: `.` and `..` are resolved as text,
/// and a separator at the end stays.
pub open spec fn absolute(p: Seq<char>, cwd: Seq<char>) -> Seq<char> {
    let parts = walked(
        if rooted(p) {
            seq![]
        } else {
            walked(seq![], cwd, 0)
        },
        p,
        0,
    );
    let root = if double_rooted(p) {
        "//"@
    } else {
        "/"@
    };
    let a = root + joined(parts, "/"@);
    if p.last() == '/' && a.last() != '/' {
        a.push('/')
    } else {
        a
    }
}

/// Why a path has no absolute form.
#[derive(Debug, Clone, Copy, PartialEq, Eq, Structural)]
pub enum AbsError {
    /// The path is empty.
    Empty,
    /// The path is relative, and the working directory is not known.
    NoCwd,
}

/// Take `part` into account.
fn step(parts: &mut Vec<String>, part: String)
    ensures
        texts(final(parts)@) == stepped(texts(old(parts)@), part@),
{
    if part.as_str().is_empty() || str_eq(part.as_str(), ".") {
        return;
    }
    if str_eq(part.as_str(), "..") {
        let ghost before = parts@;
        if parts.len() > 0 {
            parts.pop();
            assert(texts(parts@) =~= texts(before).drop_last());
        }
        return;
    }
    let ghost before = parts@;
    parts.push(part);
    assert(texts(parts@) =~= texts(before).push(part@));
}

/// Follow `p` from `parts`.
fn walk(parts: &mut Vec<String>, p: &str)
    ensures
        texts(final(parts)@) == walked(texts(old(parts)@), p@, 0),
{
    let v = chars_of(p);
    let n: usize = v.len();
    let mut i: usize = 0;
    while i < n
        invariant
            n == v@.len(),
            v@ == p@,
            i <= n,
            walked(texts(parts@), p@, i as int) == walked(texts(old(parts)@), p@, 0),
        decreases n - i,
    {
        let mut e: usize = i;
        while e < n && v[e] != '/'
            invariant
                i <= e <= n,
                n == v@.len(),
                v@ == p@,
                next_sep(p@, e as int) == next_sep(p@, i as int),
            decreases n - e,
        {
            e += 1;
        }
        step(parts, string_of_range(v.as_slice(), i, e));
        if e == n {
            assert(walked(texts(parts@), p@, e + 1) == texts(parts@));
            return;
        }
        i = e + 1;
    }
}

/// `path.abs(p)`: the absolute path, `.` and `..` resolved as text; links are not
/// followed. `cwd` is the working directory where it is known.
pub fn abs(p: &str, cwd: Option<&str>) -> (r: Result<String, AbsError>)
    ensures
        match r {
            Ok(s) => p@.len() > 0 && (rooted(p@) || cwd is Some) && s@ == absolute(
                p@,
                match cwd {
                    Some(c) => c@,
                    None => seq![],
                },
            ),
            Err(AbsError::Empty) => p@.len() == 0,
            Err(AbsError::NoCwd) => p@.len() > 0 && !rooted(p@) && cwd is None,
        },
{
    let n: usize = p.unicode_len();
    if n == 0 {
        return Err(AbsError::Empty);
    }
    let mut parts: Vec<String> = Vec::new();
    assert(texts(parts@) =~= seq![]);
    if !is_abs(p) {
        match cwd {
            Some(c) => {
                walk(&mut parts, c);
            },
            None => {
                return Err(AbsError::NoCwd);
            },
        }
    }
    walk(&mut parts, p);
    let double: bool = n >= 2 && p.get_char(0) == '/' && p.get_char(1) == '/' && !(n > 2
        && p.get_char(2) == '/');
    let mut a = if double {
        "//".to_owned()
    } else {
        "/".to_owned()
    };
    proof {
        reveal_strlit("/");
        reveal_strlit("//");
    }
    let tail = join_texts(parts.as_slice(), "/");
    a.append(tail.as_str());
    let m: usize = a.as_str().unicode_len();
    if p.get_char(n - 1) == '/' && a.as_str().get_char(m - 1) != '/' {
        a.push('/');
    }
    Ok(a)
}

// ── Comparing ────────────────────────────────────────────────────────────────

/// The parts of a path from index `i` on, without empty ones and `.`.
pub open spec fn parts_from(p: Seq<char>, i: int) -> Seq<Seq<char>>
    decreases p.len() + 1 - i,
    when 0 <= i
{
    if i >= p.len() {
        seq![]
    } else {
        let e = next_sep(p, i);
        proof {
            next_sep_within(p, i);
        }
        let part = p.subrange(i, e);
        if part.len() == 0 || part == "."@ {
            parts_from(p, e + 1)
        } else {
            seq![part] + parts_from(p, e + 1)
        }
    }
}

/// The path begins with a `.` of its own.
pub open spec fn dotted(p: Seq<char>) -> bool {
    p.len() > 0 && p[0] == '.' && (p.len() == 1 || p[1] == '/')
}

/// Two texts are the same path: repeated and trailing separators, and `.` inside, make
/// no difference.
pub open spec fn same(a: Seq<char>, b: Seq<char>) -> bool {
    rooted(a) == rooted(b) && dotted(a) == dotted(b) && parts_from(a, 0) == parts_from(b, 0)
}

/// The parts of a path, without empty ones and `.`.
fn parts_of(p: &str) -> (r: Vec<String>)
    ensures
        texts(r@) == parts_from(p@, 0),
{
    let v = chars_of(p);
    let n: usize = v.len();
    let mut out: Vec<String> = Vec::new();
    let mut i: usize = 0;
    assert(texts(out@) =~= seq![]);
    assert(seq![] + parts_from(p@, 0) =~= parts_from(p@, 0));
    while i < n
        invariant
            n == v@.len(),
            v@ == p@,
            i <= n,
            texts(out@) + parts_from(p@, i as int) == parts_from(p@, 0),
        decreases n - i,
    {
        let mut e: usize = i;
        while e < n && v[e] != '/'
            invariant
                i <= e <= n,
                n == v@.len(),
                v@ == p@,
                next_sep(p@, e as int) == next_sep(p@, i as int),
            decreases n - e,
        {
            e += 1;
        }
        let part = string_of_range(v.as_slice(), i, e);
        let ghost before = texts(out@);
        if e > i && !str_eq(part.as_str(), ".") {
            let ghost pv = part@;
            out.push(part);
            assert(texts(out@) + parts_from(p@, e + 1) =~= before + (seq![pv] + parts_from(
                p@,
                e + 1,
            )));
        }
        if e == n {
            assert(parts_from(p@, e + 1) =~= seq![]);
            assert(texts(out@) + seq![] =~= texts(out@));
            return out;
        }
        i = e + 1;
    }
    assert(texts(out@) + seq![] =~= texts(out@));
    out
}

/// Whether two texts are the same path.
pub fn same_path(a: &str, b: &str) -> (r: bool)
    ensures
        r == same(a@, b@),
{
    let m: usize = a.unicode_len();
    let n: usize = b.unicode_len();
    let da: bool = m > 0 && a.get_char(0) == '.' && (m == 1 || a.get_char(1) == '/');
    let db: bool = n > 0 && b.get_char(0) == '.' && (n == 1 || b.get_char(1) == '/');
    if is_abs(a) != is_abs(b) || da != db {
        return false;
    }
    let x = parts_of(a);
    let y = parts_of(b);
    if x.len() != y.len() {
        assert(texts(x@).len() != texts(y@).len());
        return false;
    }
    let mut i: usize = 0;
    while i < x.len()
        invariant
            i <= x@.len(),
            x@.len() == y@.len(),
            texts(x@) == parts_from(a@, 0),
            texts(y@) == parts_from(b@, 0),
            forall|k: int| 0 <= k < i ==> texts(x@)[k] == texts(y@)[k],
        decreases x@.len() - i,
    {
        if !str_eq(x[i].as_str(), y[i].as_str()) {
            assert(texts(x@)[i as int] != texts(y@)[i as int]);
            return false;
        }
        i += 1;
    }
    assert(texts(x@) =~= texts(y@));
    true
}

// ── On tagged strings ────────────────────────────────────────────────────────
//
// A result carries the trust of the paths it comes from. An absent path is the empty
// one.

/// The last part of a path, or nothing.
pub fn jrt_path_basename(p: Option<&TaggedStr>) -> (r: TaggedStr)
    ensures
        emits(r, base_name(text_or_empty(p)), trust_or_trusted(p)),
{
    emit_str(basename(borrow(p)).as_str(), trust_of(p))
}

/// The extension of a path with its dot.
pub fn jrt_path_ext(p: Option<&TaggedStr>) -> (r: Option<TaggedStr>)
    ensures
        match extension(text_or_empty(p)) {
            Some(e) => r matches Some(s) && emits(s, e, trust_or_trusted(p)),
            None => r is None,
        },
{
    match ext(borrow(p)) {
        Some(e) => Some(emit_str(e.as_str(), trust_of(p))),
        None => None,
    }
}

/// Two paths joined, as strict as the stricter of them.
pub fn jrt_path_join(a: Option<&TaggedStr>, b: Option<&TaggedStr>) -> (r: TaggedStr)
    ensures
        emits(
            r,
            pushed(text_or_empty(a), text_or_empty(b)),
            spec_combine(trust_or_trusted(a), trust_or_trusted(b)),
        ),
{
    emit_str(push_path(borrow(a), borrow(b)).as_str(), combine(trust_of(a), trust_of(b)))
}

/// The directory a path is in.
pub fn jrt_path_dirname(p: Option<&TaggedStr>) -> (r: TaggedStr)
    ensures
        emits(r, dir_name(text_or_empty(p)), trust_or_trusted(p)),
{
    emit_str(dirname(borrow(p)).as_str(), trust_of(p))
}

/// The last part of a path without its extension.
pub fn jrt_path_stem(p: Option<&TaggedStr>) -> (r: TaggedStr)
    ensures
        emits(r, stem_name(text_or_empty(p)), trust_or_trusted(p)),
{
    emit_str(stem(borrow(p)).as_str(), trust_of(p))
}

/// The absolute form of a path, or the path itself where it has none.
pub fn jrt_path_abs(p: Option<&TaggedStr>, cwd: Option<&str>) -> (r: TaggedStr)
    ensures
        emits(
            r,
            if text_or_empty(p).len() == 0 || (!rooted(text_or_empty(p)) && cwd is None) {
                text_or_empty(p)
            } else {
                absolute(
                    text_or_empty(p),
                    match cwd {
                        Some(c) => c@,
                        None => seq![],
                    },
                )
            },
            trust_or_trusted(p),
        ),
{
    match abs(borrow(p), cwd) {
        Ok(s) => emit_str(s.as_str(), trust_of(p)),
        Err(_) => emit_str(borrow(p), trust_of(p)),
    }
}

/// 1 for a path from the root, else 0.
pub fn jrt_path_is_abs(p: Option<&TaggedStr>) -> (r: i32)
    ensures
        r == (if rooted(text_or_empty(p)) {
            1int
        } else {
            0
        }),
{
    if is_abs(borrow(p)) {
        1
    } else {
        0
    }
}

// ── Laws ─────────────────────────────────────────────────────────────────────

/// What has an absolute form begins at the root.
pub proof fn absolute_is_rooted(p: Seq<char>, cwd: Seq<char>)
    ensures
        rooted(absolute(p, cwd)),
{
    reveal_strlit("/");
    reveal_strlit("//");
}

/// Joining onto an absolute path stays absolute.
pub proof fn joining_stays_rooted(base: Seq<char>, p: Seq<char>)
    requires
        rooted(base),
    ensures
        rooted(pushed(base, p)),
{
}

/// A name joined behind a directory is what the path ends in.
pub proof fn joined_name_is_last(base: Seq<char>, name: Seq<char>)
    requires
        name.len() > 0,
        !name.contains('/'),
        name != "."@,
        name != ".."@,
    ensures
        file_name(pushed(base, name)) == Some(name),
{
    let p = pushed(base, name);
    let n = p.len() as int;
    let k = n - name.len();
    reveal_strlit(".");
    assert(!rooted(name)) by {
        if rooted(name) {
            assert(name[0] == '/');
        }
    }
    assert forall|i: int| k <= i < n implies p[i] == name[i - k] && p[i] != '/' by {
        assert(name.contains(name[i - k]));
    }
    assert(k > 0 ==> p[k - 1] == '/');
    if p[n - 1] == '.' && n >= 2 && p[n - 2] == '/' {
        assert(k == n - 1);
        assert(name =~= "."@);
    }
    assert(trimmed_end(p, n) == n);
    part_start_at(p, k, n);
    assert(p.subrange(k, n) =~= name);
}

/// A part begins behind the separator before it.
proof fn part_start_at(p: Seq<char>, k: int, e: int)
    requires
        0 <= k <= e <= p.len(),
        forall|i: int| k <= i < e ==> p[i] != '/',
        k > 0 ==> p[k - 1] == '/',
    ensures
        part_start(p, e) == k,
    decreases e,
{
    if e > k {
        part_start_at(p, k, e - 1);
    }
}

/// A relative path goes behind the other with one separator between them, and an absolute
/// one takes its place.
pub proof fn joining_puts_one_separator(base: Seq<char>, p: Seq<char>)
    ensures
        p.len() > 0 && p[0] == '/' ==> pushed(base, p) == p,
        !(p.len() > 0 && p[0] == '/') ==> {
            &&& base.len() > 0 && base.last() != '/' ==> pushed(base, p) == base + "/"@ + p
            &&& base.len() == 0 || base.last() == '/' ==> pushed(base, p) == base + p
        },
{
    reveal_strlit("/");
    assert(base.push('/') + p =~= base + "/"@ + p);
}

/// A name: not empty, no separator in it, and neither `.` nor `..`.
pub open spec fn plain(name: Seq<char>) -> bool {
    name.len() > 0 && !name.contains('/') && name != "."@ && name != ".."@
}

/// A plain name begins and ends with something other than a separator.
proof fn plain_ends(name: Seq<char>)
    requires
        plain(name),
    ensures
        name[0] != '/',
        name.last() != '/',
        !rooted(name),
{
    assert(name.contains(name[0]));
    assert(name.contains(name.last()));
}

/// Names joined with separators begin and end with none.
proof fn joined_names_ends(names: Seq<Seq<char>>)
    requires
        names.len() > 0,
        forall|i: int| 0 <= i < names.len() ==> plain(#[trigger] names[i]),
    ensures
        joined(names, "/"@).len() > 0,
        joined(names, "/"@)[0] != '/',
        joined(names, "/"@).last() != '/',
    decreases names.len(),
{
    reveal_strlit("/");
    plain_ends(names.last());
    if names.len() > 1 {
        let less = names.drop_last();
        assert forall|i: int| 0 <= i < less.len() implies plain(#[trigger] less[i]) by {
            assert(less[i] == names[i]);
        }
        joined_names_ends(less);
    }
}

/// Joining names as a path puts one separator between each two of them.
pub proof fn names_join_with_separators(names: Seq<Seq<char>>)
    requires
        forall|i: int| 0 <= i < names.len() ==> plain(#[trigger] names[i]),
    ensures
        joined_path(names) == joined(names, "/"@),
    decreases names.len(),
{
    if names.len() > 1 {
        let less = names.drop_last();
        assert forall|i: int| 0 <= i < less.len() implies plain(#[trigger] less[i]) by {
            assert(less[i] == names[i]);
        }
        names_join_with_separators(less);
        joined_names_ends(less);
        plain_ends(names.last());
        joining_puts_one_separator(joined(less, "/"@), names.last());
    }
}

/// The last part of a path that ends in one.
proof fn last_part_is(p: Seq<char>, k: int)
    requires
        0 <= k < p.len(),
        forall|i: int| k <= i < p.len() ==> p[i] != '/',
        k > 0 ==> p[k - 1] == '/',
        p.skip(k) != "."@ || k == 0,
    ensures
        trimmed_end(p, p.len() as int) == p.len(),
        part_start(p, p.len() as int) == k,
        last_part(p) == p.skip(k),
{
    reveal_strlit(".");
    let n = p.len() as int;
    if n >= 2 && p[n - 1] == '.' && p[n - 2] == '/' {
        assert(k == n - 1);
        assert(p.skip(k) =~= "."@);
    }
    part_start_at(p, k, n);
    assert(p.subrange(k, n) =~= p.skip(k));
}

/// A directory comes back from a path made of it and a name. A bare name lies in the
/// current directory, and one behind the root in the root.
pub proof fn directories_come_back(base: Seq<char>, name: Seq<char>)
    requires
        name.len() > 0,
        !name.contains('/'),
        name != "."@,
        base.len() > 0,
        base.last() != '/',
        base.len() > 1 ==> !(base.last() == '.' && base[base.len() - 2] == '/'),
    ensures
        dir_name(base + "/"@ + name) == base,
        dir_name(name) == "."@,
        dir_name("/"@ + name) == "/"@,
{
    reveal_strlit("/");
    assert forall|i: int| 0 <= i < name.len() implies name[i] != '/' by {
        assert(name.contains(name[i]));
    }
    let p = base + "/"@ + name;
    let k = base.len() as int + 1;
    assert(p.skip(k as int) =~= name);
    last_part_is(p, k as int);
    assert(p[k - 1] == '/');
    assert(p[k - 2] == base.last());
    if k > 2 {
        assert(p[k - 3] == base[base.len() - 2]);
    }
    assert(trimmed_end(p, k - 1) == k - 1);
    assert(trimmed_end(p, k as int) == k - 1);
    assert(p.take(k - 1) =~= base);
    assert(name.skip(0) =~= name);
    last_part_is(name, 0);
    assert(trimmed_end(name, 0) == 0);
    let q = "/"@ + name;
    assert(q.skip(1) =~= name);
    last_part_is(q, 1);
    assert(trimmed_end(q, 1) == 1);
    assert(q.take(1) =~= "/"@);
}

/// An end depends on what is before it alone.
proof fn trimmed_end_local(p: Seq<char>, q: Seq<char>, e: int)
    requires
        0 <= e <= p.len(),
        e <= q.len(),
        p.take(e) == q.take(e),
    ensures
        trimmed_end(p, e) == trimmed_end(q, e),
        part_start(p, e) == part_start(q, e),
    decreases e,
{
    if e > 0 {
        assert(p.take(e)[e - 1] == p[e - 1]);
        assert(q.take(e)[e - 1] == q[e - 1]);
        if e > 1 {
            assert(p.take(e)[e - 2] == p[e - 2]);
            assert(q.take(e)[e - 2] == q[e - 2]);
        }
        assert(p.take(e - 1) =~= p.take(e).take(e - 1));
        assert(q.take(e - 1) =~= q.take(e).take(e - 1));
        trimmed_end_local(p, q, e - 1);
    }
}

/// A separator at the end makes no difference to the name, nor to the directory.
pub proof fn trailing_separators_do_not_count(p: Seq<char>)
    requires
        p.len() > 0,
    ensures
        base_name(p.push('/')) == base_name(p),
        dir_name(p.push('/')) == dir_name(p),
        stem_name(p.push('/')) == stem_name(p),
        extension(p.push('/')) == extension(p),
{
    let q = p.push('/');
    let n = p.len() as int;
    assert(q.take(n) =~= p.take(n));
    assert(trimmed_end(q, n + 1) == trimmed_end(q, n));
    trimmed_end_local(p, q, n);
    let e = trimmed_end(p, n);
    trimmed_end_within(p, n);
    assert(p.take(e) =~= q.take(e));
    trimmed_end_local(p, q, e);
    part_start_within(p, e);
    let s = part_start(p, e);
    assert(p.subrange(s, e) =~= q.subrange(s, e));
    assert(p.take(s) =~= q.take(s));
    trimmed_end_local(p, q, s);
    trimmed_end_within(p, s);
    assert(p.take(trimmed_end(p, s)) =~= q.take(trimmed_end(p, s)));
}

/// The last dot is found.
proof fn dot_before_is(name: Seq<char>, d: int, n: int)
    requires
        -1 <= d < n <= name.len(),
        d >= 0 ==> name[d] == '.',
        forall|i: int| d < i < n ==> name[i] != '.',
    ensures
        dot_before(name, n) == d,
    decreases n,
{
    if n - 1 > d {
        dot_before_is(name, d, n - 1);
    }
}

/// A name comes apart at its last dot, and the two parts make the name. One without a dot
/// is all stem, and so is one whose only dot begins it.
pub proof fn extensions_come_apart(stem: Seq<char>, ext: Seq<char>)
    requires
        !ext.contains('.'),
    ensures
        stem.len() > 0 ==> split_ext(stem + "."@ + ext) == (stem, Some(ext)),
        split_ext("."@ + ext) == ("."@ + ext, None::<Seq<char>>),
        split_ext(ext) == (ext, None::<Seq<char>>),
{
    reveal_strlit(".");
    assert forall|i: int| 0 <= i < ext.len() implies ext[i] != '.' by {
        assert(ext.contains(ext[i]));
    }
    let p = stem + "."@ + ext;
    dot_before_is(p, stem.len() as int, p.len() as int);
    assert(p.take(stem.len() as int) =~= stem);
    assert(p.skip(stem.len() as int + 1) =~= ext);
    let q = "."@ + ext;
    dot_before_is(q, 0, q.len() as int);
    if ext.len() > 0 {
        dot_before_is(ext, -1, ext.len() as int);
    }
}

/// The stem and the extension of a path are those of the name it ends in, whatever the
/// directory; put together they are that name again.
pub proof fn stem_and_extension_make_the_name(base: Seq<char>, stem: Seq<char>, ext: Seq<char>)
    requires
        stem.len() > 0,
        !stem.contains('/'),
        !ext.contains('/'),
        !ext.contains('.'),
        plain(stem + "."@ + ext),
    ensures
        stem_name(pushed(base, stem + "."@ + ext)) == stem,
        extension(pushed(base, stem + "."@ + ext)) == Some("."@ + ext),
        base_name(pushed(base, stem + "."@ + ext)) == stem + "."@ + ext,
{
    let name = stem + "."@ + ext;
    joined_name_is_last(base, name);
    extensions_come_apart(stem, ext);
}

/// The next separator is the first one.
proof fn next_sep_is(p: Seq<char>, i: int, e: int)
    requires
        0 <= i <= e <= p.len(),
        forall|k: int| i <= k < e ==> p[k] != '/',
        e < p.len() ==> p[e] == '/',
    ensures
        next_sep(p, i) == e,
    decreases e - i,
{
    if i < e {
        next_sep_is(p, i + 1, e);
    }
}

/// What the next separator is.
proof fn next_sep_first(p: Seq<char>, i: int)
    requires
        0 <= i <= p.len(),
    ensures
        forall|k: int| i <= k < next_sep(p, i) ==> p[k] != '/',
        next_sep(p, i) < p.len() ==> p[next_sep(p, i)] == '/',
        i <= next_sep(p, i) <= p.len(),
    decreases p.len() - i,
{
    if i < p.len() && p[i] != '/' {
        next_sep_first(p, i + 1);
    }
}

/// Walking on behind a cut is walking what is left.
proof fn walked_behind(parts: Seq<Seq<char>>, p: Seq<char>, k: int, i: int)
    requires
        0 <= k <= p.len(),
        0 <= i,
    ensures
        walked(parts, p, k + i) == walked(parts, p.skip(k), i),
        parts_from(p, k + i) == parts_from(p.skip(k), i),
    decreases p.len() + 1 - i,
{
    let q = p.skip(k);
    if i < q.len() {
        next_sep_first(q, i);
        let e = next_sep(q, i);
        assert forall|j: int| k + i <= j < k + e implies p[j] != '/' by {
            assert(q[j - k] == p[j]);
        }
        next_sep_is(p, k + i, k + e);
        assert(p.subrange(k + i, k + e) =~= q.subrange(i, e));
        walked_behind(stepped(parts, q.subrange(i, e)), p, k, e + 1);
        walked_behind(parts, p, k, e + 1);
        assert(k + (e + 1) == (k + e) + 1);
    }
}

/// Walking two paths with a separator between them, from some way into the first.
proof fn walked_through(parts: Seq<Seq<char>>, x: Seq<char>, y: Seq<char>, i: int)
    requires
        0 <= i <= x.len(),
    ensures
        walked(parts, x.push('/') + y, i) == walked(walked(parts, x, i), y, 0),
        parts_from(x.push('/') + y, i) == parts_from(x, i) + parts_from(y, 0),
    decreases x.len() - i,
{
    let z = x.push('/') + y;
    let n = x.len() as int;
    assert(z.skip(n + 1) =~= y);
    if i == n {
        next_sep_is(z, n, n);
        assert(z.subrange(n, n).len() == 0);
        walked_behind(parts, z, n + 1, 0);
        assert(walked(parts, x, n) == parts);
        assert(walked(parts, z, n) == walked(parts, z, n + 1));
        assert(parts_from(x, n).len() == 0);
        assert(parts_from(x, n) + parts_from(y, 0) =~= parts_from(y, 0));
    } else {
        next_sep_first(x, i);
        let e = next_sep(x, i);
        assert(forall|k: int| i <= k < e ==> x[k] != '/');
        assert forall|k: int| i <= k < e implies z[k] != '/' by {
            assert(z[k] == x[k]);
        }
        assert(z[e] == '/') by {
            if e < n {
                assert(z[e] == x[e]);
            }
        }
        next_sep_is(z, i, e);
        let part = x.subrange(i, e);
        assert(z.subrange(i, e) =~= part);
        let next = stepped(parts, part);
        let more = parts_from(x, e + 1);
        assert(walked(parts, x, i) == walked(next, x, e + 1));
        assert(walked(parts, z, i) == walked(next, z, e + 1));
        if e < n {
            walked_through(next, x, y, e + 1);
            walked_through(parts, x, y, e + 1);
        } else {
            walked_behind(next, z, n + 1, 0);
            assert(walked(next, x, n + 1) == next);
            assert(more =~= seq![]);
            assert(more + parts_from(y, 0) =~= parts_from(y, 0));
        }
        assert(seq![part] + (more + parts_from(y, 0)) =~= (seq![part] + more) + parts_from(y, 0));
    }
}

/// A path is walked part by part: its halves one after the other, and of each part nothing
/// and `.` stay, `..` goes up and a name goes down.
pub proof fn paths_are_walked_part_by_part(
    parts: Seq<Seq<char>>,
    x: Seq<char>,
    y: Seq<char>,
    name: Seq<char>,
)
    requires
        plain(name),
    ensures
        walked(parts, x + "/"@ + y, 0) == walked(walked(parts, x, 0), y, 0),
        walked(parts, Seq::<char>::empty(), 0) == parts,
        walked(parts, "."@, 0) == parts,
        parts.len() > 0 ==> walked(parts, ".."@, 0) == parts.drop_last(),
        parts.len() == 0 ==> walked(parts, ".."@, 0) == parts,
        walked(parts, name, 0) == parts.push(name),
{
    reveal_strlit("/");
    reveal_strlit(".");
    reveal_strlit("..");
    assert(x + "/"@ + y =~= x.push('/') + y);
    walked_through(parts, x, y, 0);
    one_step(parts, "."@);
    one_step(parts, ".."@);
    assert forall|i: int| 0 <= i < name.len() implies name[i] != '/' by {
        assert(name.contains(name[i]));
    }
    one_step(parts, name);
}

/// Walking a single part is one step.
proof fn one_step(parts: Seq<Seq<char>>, part: Seq<char>)
    requires
        part.len() > 0,
        forall|i: int| 0 <= i < part.len() ==> part[i] != '/',
    ensures
        walked(parts, part, 0) == stepped(parts, part),
        parts_from(part, 0) == if part == "."@ {
            Seq::<Seq<char>>::empty()
        } else {
            seq![part]
        },
{
    let n = part.len() as int;
    next_sep_is(part, 0, n);
    assert(part.subrange(0, n) =~= part);
    assert(walked(stepped(parts, part), part, n + 1) == stepped(parts, part));
    assert(parts_from(part, n + 1).len() == 0);
    assert(parts_from(part, n + 1) =~= Seq::<Seq<char>>::empty());
    assert(seq![part] + parts_from(part, n + 1) =~= seq![part]);
}

/// Walking names goes down through all of them.
proof fn names_are_walked(parts: Seq<Seq<char>>, names: Seq<Seq<char>>)
    requires
        forall|i: int| 0 <= i < names.len() ==> plain(#[trigger] names[i]),
    ensures
        walked(parts, joined(names, "/"@), 0) == parts + names,
        parts_from(joined(names, "/"@), 0) == names,
    decreases names.len(),
{
    reveal_strlit("/");
    if names.len() == 0 {
        assert(parts + names =~= parts);
        assert(parts_from(joined(names, "/"@), 0) =~= names);
    } else {
        let less = names.drop_last();
        let last = names.last();
        assert forall|i: int| 0 <= i < less.len() implies plain(#[trigger] less[i]) by {
            assert(less[i] == names[i]);
        }
        assert forall|i: int| 0 <= i < last.len() implies last[i] != '/' by {
            assert(last.contains(last[i]));
        }
        names_are_walked(parts, less);
        one_step(parts + less, last);
        assert((parts + less).push(last) =~= parts + names);
        if names.len() == 1 {
            assert(parts + less =~= parts);
            assert(names =~= seq![last]);
        } else {
            let x = joined(less, "/"@);
            assert(x + "/"@ + last =~= x.push('/') + last);
            walked_through(parts, x, last, 0);
            assert(less + seq![last] =~= names);
        }
    }
}

/// A path of names from the root is absolute as it stands, and so is one with a separator
/// behind it or with two in front. A path of names alone is one below the current
/// directory. `..` behind a path takes its last name off.
pub proof fn names_have_one_absolute_path(
    names: Seq<Seq<char>>,
    dirs: Seq<Seq<char>>,
    cwd: Seq<char>,
)
    requires
        names.len() > 0,
        forall|i: int| 0 <= i < names.len() ==> plain(#[trigger] names[i]),
        forall|i: int| 0 <= i < dirs.len() ==> plain(#[trigger] dirs[i]),
    ensures
        ({
            let j = joined(names, "/"@);
            &&& absolute("/"@ + j, cwd) == "/"@ + j
            &&& absolute("/"@ + j + "/"@, cwd) == "/"@ + j + "/"@
            &&& absolute("//"@ + j, cwd) == "//"@ + j
            &&& absolute("/"@ + j + "/.."@, cwd) == "/"@ + joined(names.drop_last(), "/"@)
            &&& absolute(j, "/"@ + joined(dirs, "/"@)) == "/"@ + joined(dirs + names, "/"@)
        }),
{
    reveal_strlit("/");
    reveal_strlit("//");
    reveal_strlit("..");
    reveal_strlit("/..");
    let j = joined(names, "/"@);
    let none = Seq::<Seq<char>>::empty();
    let e = Seq::<char>::empty();
    joined_names_ends(names);
    names_are_walked(none, names);
    assert(none + names =~= names);
    // One separator in front.
    let p = "/"@ + j;
    assert(p =~= e.push('/') + j);
    walked_through(none, e, j, 0);
    assert(walked(none, e, 0) == none);
    assert(walked(none, p, 0) == names);
    assert(p.last() == j.last());
    assert(p[1] == j[0]);
    // A separator behind.
    let q = "/"@ + j + "/"@;
    assert(q =~= p.push('/') + e);
    walked_through(none, p, e, 0);
    assert(walked(names, e, 0) == names);
    assert(q[1] == j[0]);
    assert(q =~= p.push('/'));
    // Two in front.
    let d = "//"@ + j;
    assert(d =~= e.push('/') + p);
    walked_through(none, e, p, 0);
    assert(d.last() == j.last());
    assert(d[2] == j[0]);
    // One up.
    let u = "/"@ + j + "/.."@;
    assert(u =~= p.push('/') + ".."@);
    walked_through(none, p, ".."@, 0);
    one_step(names, ".."@);
    assert(u[1] == j[0]);
    assert(u.last() == '.');
    assert(".."@ != "."@) by {
        reveal_strlit(".");
    }
    // Below a directory.
    let c = joined(dirs, "/"@);
    names_are_walked(none, dirs);
    assert(none + dirs =~= dirs);
    assert("/"@ + c =~= e.push('/') + c);
    walked_through(none, e, c, 0);
    names_are_walked(dirs, names);
}

/// Two spellings of a path are the same where they part at the same names: more separators
/// than one, and a `.` between two, make no difference; another name does.
pub proof fn spellings_of_one_path(x: Seq<char>, y: Seq<char>, a: Seq<char>, b: Seq<char>)
    requires
        x.len() > 0,
        plain(a),
        plain(b),
    ensures
        same(x + "/"@ + y, x + "//"@ + y),
        same(x + "/"@ + y, x + "/./"@ + y),
        same(x, x + "/"@),
        same(x + "/"@ + a, x + "/"@ + b) <==> a == b,
        !same(a, "/"@ + a),
        !same(a, "./"@ + a),
{
    reveal_strlit("/");
    reveal_strlit("//");
    reveal_strlit("/./");
    reveal_strlit("./");
    reveal_strlit(".");
    let e = Seq::<char>::empty();
    let none = Seq::<Seq<char>>::empty();
    let p = parts_from(x, 0);
    let q = parts_from(y, 0);
    assert(parts_from(e, 0) =~= none);
    assert(x + "/"@ + y =~= x.push('/') + y);
    walked_through(none, x, y, 0);
    let slashed = e.push('/') + y;
    assert(x + "//"@ + y =~= x.push('/') + slashed);
    walked_through(none, x, slashed, 0);
    walked_through(none, e, y, 0);
    assert(none + q =~= q);
    let pointed = "."@.push('/') + y;
    assert(x + "/./"@ + y =~= x.push('/') + pointed);
    walked_through(none, x, pointed, 0);
    walked_through(none, "."@, y, 0);
    one_step(none, "."@);
    assert(x + "/"@ =~= x.push('/') + e);
    walked_through(none, x, e, 0);
    assert(p + none =~= p);
    assert forall|i: int| 0 <= i < a.len() implies a[i] != '/' by {
        assert(a.contains(a[i]));
    }
    assert forall|i: int| 0 <= i < b.len() implies b[i] != '/' by {
        assert(b.contains(b[i]));
    }
    one_step(none, a);
    one_step(none, b);
    assert(x + "/"@ + a =~= x.push('/') + a);
    assert(x + "/"@ + b =~= x.push('/') + b);
    walked_through(none, x, a, 0);
    walked_through(none, x, b, 0);
    if p + seq![a] == p + seq![b] {
        assert((p + seq![a]).last() == a);
        assert((p + seq![b]).last() == b);
    }
    plain_ends(a);
    assert(("/"@ + a)[0] == '/');
    let k = "./"@ + a;
    assert(k[0] == '.' && k[1] == '/');
    if dotted(a) {
        if a.len() == 1 {
            assert(a =~= "."@);
        }
    }
}

/// A name comes apart into a stem and an extension only where it is these two with a dot
/// between them.
pub proof fn extensions_go_back_together(name: Seq<char>)
    ensures
        split_ext(name).1 matches Some(e) ==> name == split_ext(name).0 + "."@ + e && !e.contains(
            '.',
        ) && split_ext(name).0.len() > 0,
{
    reveal_strlit(".");
    let d = dot_before(name, name.len() as int);
    dot_before_finds(name, name.len() as int);
    if d > 0 {
        assert(name =~= name.take(d) + "."@ + name.skip(d + 1));
        let e = name.skip(d + 1);
        if e.contains('.') {
            let k = choose|k: int| 0 <= k < e.len() && e[k] == '.';
            assert(name[d + 1 + k] == '.');
        }
    }
}

/// Where the last dot is.
proof fn dot_before_finds(name: Seq<char>, n: int)
    requires
        0 <= n <= name.len(),
    ensures
        ({
            let d = dot_before(name, n);
            &&& -1 <= d < n || d == -1
            &&& d >= 0 ==> name[d] == '.'
            &&& forall|i: int| d < i < n ==> name[i] != '.'
        }),
    decreases n,
{
    if n > 0 && name[n - 1] != '.' {
        dot_before_finds(name, n - 1);
    }
}

} // verus!
