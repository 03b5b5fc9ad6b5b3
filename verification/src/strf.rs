//! The `string.*` operations.
//!
//! Every index is a character index, never a byte offset: `len` counts characters and
//! so does everything here. Bounds are clamped rather than refused.

use vstd::prelude::*;

use crate::cstr::{borrow, emit_str};
use crate::string::{trust_of, TaggedStr};
use crate::text::{chars_of, find_from, find_last, matches_at, string_of_range};
#[allow(unused_imports)]
use crate::cstr::{emits, text_or_empty, trust_or_trusted};
#[allow(unused_imports)]
use crate::text::{joined, occurs_at, texts};

verus! {

// ── Case ─────────────────────────────────────────────────────────────────────

/// Every character is ASCII.
pub open spec fn all_ascii(s: Seq<char>) -> bool {
    forall|i: int| 0 <= i < s.len() ==> (#[trigger] s[i] as int) < 128
}

/// The capital of an ASCII character.
pub open spec fn ascii_upper(c: char) -> char {
    if 97 <= (c as int) <= 122 {
        (c as int - 32) as char
    } else {
        c
    }
}

/// The small letter of an ASCII character.
pub open spec fn ascii_lower(c: char) -> char {
    if 65 <= (c as int) <= 90 {
        (c as int + 32) as char
    } else {
        c
    }
}

/// A text with every ASCII small letter as its capital.
pub open spec fn ascii_uppers(s: Seq<char>) -> Seq<char> {
    s.map_values(|c: char| ascii_upper(c))
}

/// A text with every ASCII capital as its small letter.
pub open spec fn ascii_lowers(s: Seq<char>) -> Seq<char> {
    s.map_values(|c: char| ascii_lower(c))
}

/// The uppercase form of a text.
pub uninterp spec fn uppercase(s: Seq<char>) -> Seq<char>;

/// The lowercase form of a text.
pub uninterp spec fn lowercase(s: Seq<char>) -> Seq<char>;

/// The uppercase form of one character.
pub uninterp spec fn char_uppercase(c: char) -> Seq<char>;

/// `str::to_uppercase`: the full Unicode mapping, which may change the number of
/// characters. On ASCII text it is the ASCII mapping, character by character; on other
/// text it is not stated further.
#[verifier::external_body]
pub fn upper(s: &str) -> (r: String)
    ensures
        r@ == uppercase(s@),
        all_ascii(s@) ==> r@.len() == s@.len() && forall|i: int|
            0 <= i < s@.len() ==> #[trigger] r@[i] == ascii_upper(s@[i]),
{
    s.to_uppercase()
}

/// `str::to_lowercase`: the full Unicode mapping, which may change the number of
/// characters. On ASCII text it is the ASCII mapping, character by character; on other
/// text it is not stated further.
#[verifier::external_body]
pub fn lower(s: &str) -> (r: String)
    ensures
        r@ == lowercase(s@),
        all_ascii(s@) ==> r@.len() == s@.len() && forall|i: int|
            0 <= i < s@.len() ==> #[trigger] r@[i] == ascii_lower(s@[i]),
{
    s.to_lowercase()
}

/// `char::to_uppercase`: the full Unicode mapping of one character. An ASCII character
/// maps to its capital; the rest is not stated.
#[verifier::external_body]
fn upper_char(c: char) -> (r: String)
    ensures
        r@ == char_uppercase(c),
        (c as int) < 128 ==> r@ == seq![ascii_upper(c)],
{
    c.to_uppercase().collect()
}

/// A text with its first character in uppercase and the rest in lowercase.
pub open spec fn capitalized(s: Seq<char>) -> Seq<char> {
    if s.len() == 0 {
        s
    } else {
        char_uppercase(s[0]) + lowercase(s.skip(1))
    }
}

/// An ASCII text with its first letter as a capital and the rest small.
pub open spec fn ascii_capitalized(s: Seq<char>) -> Seq<char> {
    if s.len() == 0 {
        s
    } else {
        seq![ascii_upper(s[0])] + ascii_lowers(s.skip(1))
    }
}

/// `s.capitalize()`: the first character in uppercase, the rest in lowercase.
pub fn capitalize(s: &str) -> (r: String)
    ensures
        r@ == capitalized(s@),
        s@.len() > 0 && (s@[0] as int) < 128 ==> char_uppercase(s@[0]) == seq![ascii_upper(s@[0])],
        s@.len() > 0 && all_ascii(s@.skip(1)) ==> lowercase(s@.skip(1)) == ascii_lowers(s@.skip(1)),
        all_ascii(s@) ==> r@ == ascii_capitalized(s@),
{
    let n: usize = s.unicode_len();
    if n == 0 {
        assert(s@ =~= seq![]);
        return String::new();
    }
    let mut out = upper_char(s.get_char(0));
    let rest = s.substring_char(1, n);
    let low = lower(rest);
    assert(s@.skip(1) =~= s@.subrange(1, n as int));
    proof {
        if all_ascii(s@) {
            assert forall|i: int| 0 <= i < s@.skip(1).len() implies (#[trigger] s@.skip(1)[i] as int)
                < 128 by {
                assert((s@[i + 1] as int) < 128);
            }
        }
        if all_ascii(s@.skip(1)) {
            assert(low@ =~= ascii_lowers(s@.skip(1)));
        }
    }
    out.append(low.as_str());
    out
}

// ── Searching ────────────────────────────────────────────────────────────────

/// `i` moved into `0..=n`.
pub open spec fn clamped(i: int, n: int) -> int {
    if i < 0 {
        0
    } else if i > n {
        n
    } else {
        i
    }
}

/// The character index `i`, clamped to a text of `n` characters.
fn clamp_index(i: i64, n: usize) -> (r: usize)
    ensures
        r == clamped(i as int, n as int),
{
    if i <= 0 {
        0
    } else if i as u64 > n as u64 {
        n
    } else {
        i as usize
    }
}

/// The byte offset of character index `i`, clamped to the ends of the text.
pub fn byte_at(s: &str, i: i64) -> (r: usize)
    ensures
        r == vstd::utf8::encode_utf8(s@.take(clamped(i as int, s@.len() as int))).len() as usize,
{
    let n: usize = s.unicode_len();
    let k: usize = clamp_index(i, n);
    let head = s.substring_char(0, k);
    assert(s@.take(k as int) =~= s@.subrange(0, k as int));
    head.len()
}

/// The first occurrence of `sub` is at `r`; -1 when there is none.
pub open spec fn is_first(s: Seq<char>, sub: Seq<char>, r: int) -> bool {
    &&& r == -1 ==> forall|j: int| !#[trigger] occurs_at(s, sub, j)
    &&& r != -1 ==> r >= 0 && occurs_at(s, sub, r) && forall|j: int|
        j < r ==> !#[trigger] occurs_at(s, sub, j)
}

/// The last occurrence of `sub` is at `r`; -1 when there is none.
pub open spec fn is_last(s: Seq<char>, sub: Seq<char>, r: int) -> bool {
    &&& r == -1 ==> forall|j: int| !#[trigger] occurs_at(s, sub, j)
    &&& r != -1 ==> r >= 0 && occurs_at(s, sub, r) && forall|j: int|
        j > r ==> !#[trigger] occurs_at(s, sub, j)
}

/// `s.index_of(sub)`: the character index of the first occurrence, or -1.
pub fn index_of(s: &str, sub: &str) -> (r: i64)
    requires
        s@.len() <= i64::MAX,
    ensures
        is_first(s@, sub@, r as int),
{
    let h = chars_of(s);
    let n = chars_of(sub);
    match find_from(h.as_slice(), n.as_slice(), 0) {
        Some(i) => i as i64,
        None => {
            assert forall|j: int| !occurs_at(s@, sub@, j) by {
                if j >= 0 {
                    assert(!occurs_at(h@, n@, j));
                }
            }
            -1
        },
    }
}

/// `s.last_index_of(sub)`: the character index of the last occurrence, or -1.
pub fn last_index_of(s: &str, sub: &str) -> (r: i64)
    requires
        s@.len() <= i64::MAX,
    ensures
        is_last(s@, sub@, r as int),
{
    let h = chars_of(s);
    let n = chars_of(sub);
    match find_last(h.as_slice(), n.as_slice()) {
        Some(i) => i as i64,
        None => -1,
    }
}

/// How many times `n` occurs in `h` from index `i` on, each occurrence starting behind
/// the one before it.
pub open spec fn occurrences(h: Seq<char>, n: Seq<char>, i: int) -> nat
    decreases h.len() - i,
{
    if i < 0 || n.len() == 0 || i + n.len() > h.len() {
        0
    } else if occurs_at(h, n, i) {
        1 + occurrences(h, n, i + n.len())
    } else {
        occurrences(h, n, i + 1)
    }
}

/// There are no more occurrences than characters left.
proof fn occurrences_bounded(h: Seq<char>, n: Seq<char>, i: int)
    requires
        0 <= i <= h.len(),
    ensures
        occurrences(h, n, i) <= h.len() - i,
    decreases h.len() - i,
{
    if n.len() != 0 && i + n.len() <= h.len() {
        if occurs_at(h, n, i) {
            occurrences_bounded(h, n, i + n.len());
        } else {
            occurrences_bounded(h, n, i + 1);
        }
    }
}

/// `s.count(sub)`: the occurrences that do not overlap; none for an empty text.
pub fn count(s: &str, sub: &str) -> (r: i64)
    requires
        s@.len() <= i64::MAX,
    ensures
        r == occurrences(s@, sub@, 0),
{
    let h = chars_of(s);
    let n = chars_of(sub);
    if n.len() == 0 {
        return 0;
    }
    let mut found: i64 = 0;
    let mut i: usize = 0;
    let m: usize = h.len();
    while i < m && n.len() <= m - i
        invariant
            h@ == s@,
            n@ == sub@,
            m == h@.len(),
            m <= i64::MAX,
            n@.len() > 0,
            i <= m,
            0 <= found <= i,
            found + occurrences(s@, sub@, i as int) == occurrences(s@, sub@, 0),
        decreases m - i,
    {
        if matches_at(h.as_slice(), n.as_slice(), i) {
            found = found + 1;
            i = i + n.len();
        } else {
            i = i + 1;
        }
    }
    found
}

// ── Cutting ──────────────────────────────────────────────────────────────────

/// The characters from `start` up to `end`, both clamped; nothing when they cross.
pub open spec fn sliced(s: Seq<char>, start: int, end: int) -> Seq<char> {
    let a = clamped(start, s.len() as int);
    let b = clamped(end, s.len() as int);
    if a >= b {
        seq![]
    } else {
        s.subrange(a, b)
    }
}

/// `s.slice(start, end)`.
pub fn slice(s: &str, start: i64, end: i64) -> (r: &str)
    ensures
        r@ == sliced(s@, start as int, end as int),
{
    let n: usize = s.unicode_len();
    let a: usize = clamp_index(start, n);
    let b: usize = clamp_index(end, n);
    if a >= b {
        let r = s.substring_char(0, 0);
        assert(r@ =~= seq![]);
        r
    } else {
        s.substring_char(a, b)
    }
}

/// The character is white space: the Unicode `White_Space` property.
pub open spec fn is_white(c: char) -> bool {
    let u = c as int;
    9 <= u <= 13 || u == 0x20 || u == 0x85 || u == 0xa0 || u == 0x1680 || 0x2000 <= u <= 0x200a
        || u == 0x2028 || u == 0x2029 || u == 0x202f || u == 0x205f || u == 0x3000
}

/// Whether a character is white space.
pub fn white(c: char) -> (r: bool)
    ensures
        r == is_white(c),
{
    let u: u32 = c as u32;
    (9 <= u && u <= 13) || u == 0x20 || u == 0x85 || u == 0xa0 || u == 0x1680 || (0x2000 <= u && u
        <= 0x200a) || u == 0x2028 || u == 0x2029 || u == 0x202f || u == 0x205f || u == 0x3000
}

/// The text without its leading white space.
pub open spec fn left_trimmed(s: Seq<char>) -> Seq<char>
    decreases s.len(),
{
    if s.len() > 0 && is_white(s[0]) {
        left_trimmed(s.skip(1))
    } else {
        s
    }
}

/// The text without its trailing white space.
pub open spec fn right_trimmed(s: Seq<char>) -> Seq<char>
    decreases s.len(),
{
    if s.len() > 0 && is_white(s.last()) {
        right_trimmed(s.drop_last())
    } else {
        s
    }
}

/// The text without white space at either end.
pub open spec fn trimmed(s: Seq<char>) -> Seq<char> {
    right_trimmed(left_trimmed(s))
}

/// `s.trim_start()`: leading white space removed.
pub fn trim_start(s: &str) -> (r: &str)
    ensures
        r@ == left_trimmed(s@),
{
    let v = chars_of(s);
    let n: usize = v.len();
    let mut i: usize = 0;
    assert(s@.skip(0) =~= s@);
    while i < n && white(v[i])
        invariant
            i <= n,
            n == v@.len(),
            v@ == s@,
            left_trimmed(s@.skip(i as int)) == left_trimmed(s@),
        decreases n - i,
    {
        assert(s@.skip(i as int).skip(1) =~= s@.skip(i + 1));
        i += 1;
    }
    assert(s@.skip(i as int) =~= s@.subrange(i as int, n as int));
    s.substring_char(i, n)
}

/// `s.trim_end()`: trailing white space removed.
pub fn trim_end(s: &str) -> (r: &str)
    ensures
        r@ == right_trimmed(s@),
{
    let v = chars_of(s);
    let mut n: usize = v.len();
    assert(s@.take(n as int) =~= s@);
    while n > 0 && white(v[n - 1])
        invariant
            n <= v@.len(),
            v@ == s@,
            right_trimmed(s@.take(n as int)) == right_trimmed(s@),
        decreases n,
    {
        assert(s@.take(n as int).last() == v@[n - 1]);
        assert(s@.take(n as int).drop_last() =~= s@.take(n - 1));
        n -= 1;
    }
    proof {
        if n > 0 {
            assert(s@.take(n as int).last() == v@[n - 1]);
        }
        assert(s@.take(n as int) =~= s@.subrange(0, n as int));
    }
    s.substring_char(0, n)
}

/// White space removed at both ends.
pub fn trim(s: &str) -> (r: &str)
    ensures
        r@ == trimmed(s@),
{
    trim_end(trim_start(s))
}

// ── Splitting ────────────────────────────────────────────────────────────────

/// The first occurrence of `sep` at or behind `i`, if there is one.
pub open spec fn next_occurrence(s: Seq<char>, sep: Seq<char>, i: int) -> Option<int>
    decreases s.len() + 1 - i,
{
    if i < 0 || i + sep.len() > s.len() {
        None
    } else if occurs_at(s, sep, i) {
        Some(i)
    } else {
        next_occurrence(s, sep, i + 1)
    }
}

/// An occurrence lies behind where the search began, and within the text.
pub proof fn next_occurrence_within(s: Seq<char>, sep: Seq<char>, i: int)
    requires
        0 <= i,
    ensures
        next_occurrence(s, sep, i) matches Some(j) ==> i <= j && j + sep.len() <= s.len(),
    decreases s.len() + 1 - i,
{
    if i + sep.len() <= s.len() && !occurs_at(s, sep, i) {
        next_occurrence_within(s, sep, i + 1);
    }
}

/// What lies between the occurrences of `sep` from `i` on.
pub open spec fn pieces(s: Seq<char>, sep: Seq<char>, i: int) -> Seq<Seq<char>>
    decreases s.len() - i,
    when 0 <= i && sep.len() > 0
{
    proof {
        next_occurrence_within(s, sep, i);
    }
    match next_occurrence(s, sep, i) {
        Some(j) => seq![s.subrange(i, j)] + pieces(s, sep, j + sep.len()),
        None => seq![s.skip(i)],
    }
}

/// Each of the first `n` characters as a text of its own.
pub open spec fn single_chars(s: Seq<char>, n: int) -> Seq<Seq<char>>
    decreases n,
{
    if n <= 0 {
        seq![]
    } else {
        single_chars(s, n - 1).push(s.subrange(n - 1, n))
    }
}

/// The parts a text splits into. At an empty separator it splits everywhere: before and
/// behind each character.
pub open spec fn parts_at(s: Seq<char>, sep: Seq<char>) -> Seq<Seq<char>> {
    if sep.len() == 0 {
        (seq![Seq::<char>::empty()] + single_chars(s, s.len() as int)).push(seq![])
    } else {
        pieces(s, sep, 0)
    }
}

/// `s.split(sep)`: the parts between the occurrences of `sep`.
pub fn split(s: &str, sep: &str) -> (r: Vec<String>)
    ensures
        texts(r@) == parts_at(s@, sep@),
{
    let h = chars_of(s);
    let n = chars_of(sep);
    let m: usize = h.len();
    let k: usize = n.len();
    let mut out: Vec<String> = Vec::new();
    if k == 0 {
        out.push(String::new());
        let mut i: usize = 0;
        assert(texts(out@) =~= seq![Seq::<char>::empty()] + single_chars(s@, 0));
        while i < m
            invariant
                i <= m,
                m == h@.len(),
                h@ == s@,
                texts(out@) == seq![Seq::<char>::empty()] + single_chars(s@, i as int),
            decreases m - i,
        {
            let ghost before = out@;
            out.push(string_of_range(h.as_slice(), i, i + 1));
            i += 1;
            assert(texts(out@) =~= texts(before).push(s@.subrange(i - 1, i as int)));
            assert(texts(out@) =~= seq![Seq::<char>::empty()] + single_chars(s@, i as int));
        }
        let ghost before = out@;
        out.push(String::new());
        assert(texts(out@) =~= texts(before).push(seq![]));
        return out;
    }
    let mut start: usize = 0;
    let mut i: usize = 0;
    assert(texts(out@) + pieces(s@, sep@, 0) =~= pieces(s@, sep@, 0));
    while k <= m && i <= m - k
        invariant
            m == h@.len(),
            k == n@.len(),
            k > 0,
            h@ == s@,
            n@ == sep@,
            start <= i <= m,
            next_occurrence(s@, sep@, i as int) == next_occurrence(s@, sep@, start as int),
            texts(out@) + pieces(s@, sep@, start as int) == pieces(s@, sep@, 0),
        decreases m - i,
    {
        if matches_at(h.as_slice(), n.as_slice(), i) {
            let ghost before = texts(out@);
            let ghost part = s@.subrange(start as int, i as int);
            let ghost rest = pieces(s@, sep@, i + k);
            out.push(string_of_range(h.as_slice(), start, i));
            assert(texts(out@) =~= before.push(part));
            assert(before + (seq![part] + rest) =~= texts(out@) + rest);
            i = i + k;
            start = i;
        } else {
            i = i + 1;
        }
    }
    let ghost before = texts(out@);
    out.push(string_of_range(h.as_slice(), start, m));
    assert(s@.subrange(start as int, m as int) =~= s@.skip(start as int));
    assert(texts(out@) =~= before + seq![s@.skip(start as int)]);
    out
}

// ── Building ─────────────────────────────────────────────────────────────────

/// `n` copies of a text.
pub open spec fn copies(s: Seq<char>, n: nat) -> Seq<char>
    decreases n,
{
    if n == 0 {
        seq![]
    } else {
        copies(s, (n - 1) as nat) + s
    }
}

/// How many copies are asked for: none for a negative number.
pub open spec fn times(n: int) -> nat {
    if n <= 0 {
        0
    } else {
        n as nat
    }
}

/// `s.repeat(n)`: `n` copies; none for zero or a negative number.
pub fn repeat(s: &str, n: i64) -> (r: String)
    ensures
        r@ == copies(s@, times(n as int)),
{
    let mut out = String::new();
    let mut i: i64 = 0;
    while i < n
        invariant
            0 <= i,
            n > 0 ==> i <= n,
            n <= 0 ==> i == 0,
            out@ == copies(s@, i as nat),
        decreases n - i,
    {
        out.append(s);
        i += 1;
    }
    out
}

/// The first `n` characters of a text repeated over and over.
pub open spec fn cycled(p: Seq<char>, n: nat) -> Seq<char>
    decreases n,
{
    if n == 0 || p.len() == 0 {
        seq![]
    } else {
        cycled(p, (n - 1) as nat).push(p[(n - 1) as int % p.len() as int])
    }
}

/// How many pad characters a text needs to reach `width`, if any: none when it is long
/// enough already, and none when there is nothing to pad with.
pub open spec fn pad_need(s: Seq<char>, width: int, pad: Seq<char>) -> Option<nat> {
    if pad.len() == 0 || width <= 0 || s.len() >= width {
        None
    } else {
        Some((width - s.len()) as nat)
    }
}

/// The length of `s`, and how many pad characters it needs to reach `width`.
pub fn pad_shape(s: &str, width: i64, pad: &str) -> (r: (usize, Option<usize>))
    ensures
        r.0 == s@.len(),
        match r.1 {
            Some(n) => pad_need(s@, width as int, pad@) == Some(n as nat),
            None => pad_need(s@, width as int, pad@) is None || pad_need(
                s@,
                width as int,
                pad@,
            )->Some_0 > usize::MAX,
        },
        usize::MAX >= i64::MAX ==> (r.1 is None) == (pad_need(s@, width as int, pad@) is None),
{
    let have: usize = s.unicode_len();
    if pad.is_empty() || width <= 0 || have as u64 >= width as u64 {
        return (have, None);
    }
    let need: u64 = width as u64 - have as u64;
    if need > usize::MAX as u64 {
        return (have, None);
    }
    (have, Some(need as usize))
}

/// Append `n` characters of `pad` repeated over and over.
fn push_cycled(out: &mut String, pad: &str, n: usize)
    requires
        pad@.len() > 0,
    ensures
        final(out)@ == old(out)@ + cycled(pad@, n as nat),
{
    let v = chars_of(pad);
    let m: usize = v.len();
    let mut i: usize = 0;
    while i < n
        invariant
            i <= n,
            m == v@.len(),
            m > 0,
            v@ == pad@,
            out@ == old(out)@ + cycled(pad@, i as nat),
        decreases n - i,
    {
        out.push(v[i % m]);
        i += 1;
        proof {
            cycled_grows(old(out)@, pad@, i as nat);
        }
    }
}

/// One more character of the cycle.
proof fn cycled_grows(start: Seq<char>, p: Seq<char>, n: nat)
    requires
        n > 0,
        p.len() > 0,
    ensures
        (start + cycled(p, (n - 1) as nat)).push(p[(n - 1) as int % p.len() as int]) == start
            + cycled(p, n),
{
    let a = start + cycled(p, (n - 1) as nat);
    push_concat(start, cycled(p, (n - 1) as nat), p[(n - 1) as int % p.len() as int]);
}

/// Appending at the end of a concatenation appends to its second part.
proof fn push_concat(a: Seq<char>, b: Seq<char>, c: char)
    ensures
        (a + b).push(c) == a + b.push(c),
{
    assert((a + b).push(c) =~= a + b.push(c));
}

/// The text padded on the left to `width` characters.
pub open spec fn padded_start(s: Seq<char>, width: int, pad: Seq<char>) -> Seq<char> {
    match pad_need(s, width, pad) {
        Some(n) => cycled(pad, n) + s,
        None => s,
    }
}

/// The text padded on the right to `width` characters.
pub open spec fn padded_end(s: Seq<char>, width: int, pad: Seq<char>) -> Seq<char> {
    match pad_need(s, width, pad) {
        Some(n) => s + cycled(pad, n),
        None => s,
    }
}

/// `s.pad_start(width, pad)`: never shortens, and cuts a long pad to fit.
pub fn pad_start(s: &str, width: i64, pad: &str) -> (r: String)
    requires
        width <= usize::MAX,
    ensures
        r@ == padded_start(s@, width as int, pad@),
{
    let (_, need) = pad_shape(s, width, pad);
    match need {
        None => s.to_owned(),
        Some(n) => {
            let mut out = String::new();
            push_cycled(&mut out, pad, n);
            assert(out@ =~= cycled(pad@, n as nat));
            out.append(s);
            out
        },
    }
}

/// `s.pad_end(width, pad)`: never shortens, and cuts a long pad to fit.
pub fn pad_end(s: &str, width: i64, pad: &str) -> (r: String)
    requires
        width <= usize::MAX,
    ensures
        r@ == padded_end(s@, width as int, pad@),
{
    let (_, need) = pad_shape(s, width, pad);
    match need {
        None => s.to_owned(),
        Some(n) => {
            let mut out = s.to_owned();
            push_cycled(&mut out, pad, n);
            out
        },
    }
}

/// `s.is_empty()`.
pub fn is_empty(s: &str) -> (r: bool)
    ensures
        r == (s@.len() == 0),
{
    s.is_empty()
}

// ── On tagged strings ────────────────────────────────────────────────────────
//
// A result carries the trust of the receiver. An absent string is the empty one.

/// The uppercase form of a string.
pub fn jrt_str_upper(s: Option<&TaggedStr>) -> (r: TaggedStr)
    ensures
        emits(r, uppercase(text_or_empty(s)), trust_or_trusted(s)),
        all_ascii(text_or_empty(s)) ==> emits(
            r,
            ascii_uppers(text_or_empty(s)),
            trust_or_trusted(s),
        ),
{
    let up = upper(borrow(s));
    assert(all_ascii(text_or_empty(s)) ==> up@ =~= ascii_uppers(text_or_empty(s)));
    emit_str(up.as_str(), trust_of(s))
}

/// The lowercase form of a string.
pub fn jrt_str_lower(s: Option<&TaggedStr>) -> (r: TaggedStr)
    ensures
        emits(r, lowercase(text_or_empty(s)), trust_or_trusted(s)),
        all_ascii(text_or_empty(s)) ==> emits(
            r,
            ascii_lowers(text_or_empty(s)),
            trust_or_trusted(s),
        ),
{
    let low = lower(borrow(s));
    assert(all_ascii(text_or_empty(s)) ==> low@ =~= ascii_lowers(text_or_empty(s)));
    emit_str(low.as_str(), trust_of(s))
}

/// A string without its leading whitespace.
pub fn jrt_str_trim_start(s: Option<&TaggedStr>) -> (r: TaggedStr)
    ensures
        emits(r, left_trimmed(text_or_empty(s)), trust_or_trusted(s)),
{
    emit_str(trim_start(borrow(s)), trust_of(s))
}

/// A string without its trailing whitespace.
pub fn jrt_str_trim_end(s: Option<&TaggedStr>) -> (r: TaggedStr)
    ensures
        emits(r, right_trimmed(text_or_empty(s)), trust_or_trusted(s)),
{
    emit_str(trim_end(borrow(s)), trust_of(s))
}

/// A string with its first character in uppercase and the rest in lowercase.
pub fn jrt_str_capitalize(s: Option<&TaggedStr>) -> (r: TaggedStr)
    ensures
        emits(r, capitalized(text_or_empty(s)), trust_or_trusted(s)),
        all_ascii(text_or_empty(s)) ==> emits(
            r,
            ascii_capitalized(text_or_empty(s)),
            trust_or_trusted(s),
        ),
{
    emit_str(capitalize(borrow(s)).as_str(), trust_of(s))
}

/// The characters from `start` up to `end`, both clamped.
pub fn jrt_str_slice(s: Option<&TaggedStr>, start: i64, end: i64) -> (r: TaggedStr)
    ensures
        emits(r, sliced(text_or_empty(s), start as int, end as int), trust_or_trusted(s)),
{
    emit_str(slice(borrow(s), start, end), trust_of(s))
}

/// `n` copies of a string, and none for a negative `n`.
pub fn jrt_str_repeat(s: Option<&TaggedStr>, n: i64) -> (r: TaggedStr)
    ensures
        emits(r, copies(text_or_empty(s), times(n as int)), trust_or_trusted(s)),
{
    emit_str(repeat(borrow(s), n).as_str(), trust_of(s))
}

/// A string padded at its start to `width` characters. The padding does not change its trust.
pub fn jrt_str_pad_start(s: Option<&TaggedStr>, width: i64, pad: Option<&TaggedStr>) -> (r: TaggedStr)
    requires
        width <= usize::MAX,
    ensures
        emits(
            r,
            padded_start(text_or_empty(s), width as int, text_or_empty(pad)),
            trust_or_trusted(s),
        ),
{
    emit_str(pad_start(borrow(s), width, borrow(pad)).as_str(), trust_of(s))
}

/// A string padded at its end to `width` characters. The padding does not change its trust.
pub fn jrt_str_pad_end(s: Option<&TaggedStr>, width: i64, pad: Option<&TaggedStr>) -> (r: TaggedStr)
    requires
        width <= usize::MAX,
    ensures
        emits(
            r,
            padded_end(text_or_empty(s), width as int, text_or_empty(pad)),
            trust_or_trusted(s),
        ),
{
    emit_str(pad_end(borrow(s), width, borrow(pad)).as_str(), trust_of(s))
}

/// Where a text first occurs in a string, or -1.
pub fn jrt_str_index_of(s: Option<&TaggedStr>, sub: Option<&TaggedStr>) -> (r: i64)
    requires
        text_or_empty(s).len() <= i64::MAX,
    ensures
        is_first(text_or_empty(s), text_or_empty(sub), r as int),
{
    index_of(borrow(s), borrow(sub))
}

/// Where a text last occurs in a string, or -1.
pub fn jrt_str_last_index_of(s: Option<&TaggedStr>, sub: Option<&TaggedStr>) -> (r: i64)
    requires
        text_or_empty(s).len() <= i64::MAX,
    ensures
        is_last(text_or_empty(s), text_or_empty(sub), r as int),
{
    last_index_of(borrow(s), borrow(sub))
}

/// How often a text occurs in a string.
pub fn jrt_str_count(s: Option<&TaggedStr>, sub: Option<&TaggedStr>) -> (r: i64)
    requires
        text_or_empty(s).len() <= i64::MAX,
    ensures
        r == occurrences(text_or_empty(s), text_or_empty(sub), 0),
{
    count(borrow(s), borrow(sub))
}

/// 1 for a string without characters, else 0.
pub fn jrt_str_is_empty(s: Option<&TaggedStr>) -> (r: i32)
    ensures
        r == (if text_or_empty(s).len() == 0 {
            1int
        } else {
            0
        }),
{
    if is_empty(borrow(s)) {
        1
    } else {
        0
    }
}

// ── Laws ─────────────────────────────────────────────────────────────────────

/// A cycle has the asked length.
proof fn cycled_len(p: Seq<char>, n: nat)
    requires
        p.len() > 0,
    ensures
        cycled(p, n).len() == n,
    decreases n,
{
    if n > 0 {
        cycled_len(p, (n - 1) as nat);
    }
}

/// A padded text has exactly the asked width, unless it was longer or there was nothing
/// to pad with; then it is unchanged.
pub proof fn padding_reaches_the_width(s: Seq<char>, width: int, pad: Seq<char>)
    ensures
        pad.len() > 0 && width > s.len() ==> padded_start(s, width, pad).len() == width
            && padded_end(s, width, pad).len() == width,
        !(pad.len() > 0 && width > s.len()) ==> padded_start(s, width, pad) == s && padded_end(
            s,
            width,
            pad,
        ) == s,
{
    if pad.len() > 0 && width > s.len() {
        cycled_len(pad, (width - s.len()) as nat);
    }
}

/// Cutting at any index and joining the two parts gives the text back.
pub proof fn slices_join(s: Seq<char>, i: int)
    ensures
        sliced(s, 0, i) + sliced(s, i, s.len() as int) == s,
{
    assert(sliced(s, 0, i) + sliced(s, i, s.len() as int) =~= s);
}

/// Repetition multiplies the length.
pub proof fn repeat_multiplies(s: Seq<char>, n: nat)
    ensures
        copies(s, n).len() == n * s.len(),
    decreases n,
{
    if n > 0 {
        repeat_multiplies(s, (n - 1) as nat);
        assert(n * s.len() == (n - 1) * s.len() + s.len()) by (nonlinear_arith)
            requires
                n > 0,
        ;
    } else {
        assert(0 * s.len() == 0) by (nonlinear_arith);
    }
}

/// Trimming twice is trimming once.
pub proof fn trimming_is_idempotent(s: Seq<char>)
    ensures
        left_trimmed(left_trimmed(s)) == left_trimmed(s),
        right_trimmed(right_trimmed(s)) == right_trimmed(s),
    decreases s.len(),
{
    if s.len() > 0 && is_white(s[0]) {
        trimming_is_idempotent(s.skip(1));
    }
    if s.len() > 0 && is_white(s.last()) {
        trimming_is_idempotent(s.drop_last());
    }
}

/// Joining parts behind a first one.
proof fn joined_front(a: Seq<char>, rest: Seq<Seq<char>>, sep: Seq<char>)
    requires
        rest.len() > 0,
    ensures
        joined(seq![a] + rest, sep) == a + sep + joined(rest, sep),
    decreases rest.len(),
{
    let all = seq![a] + rest;
    if rest.len() == 1 {
        assert(all.drop_last() =~= seq![a]);
        assert(joined(all.drop_last(), sep) == a);
    } else {
        assert(all.drop_last() =~= seq![a] + rest.drop_last());
        joined_front(a, rest.drop_last(), sep);
        assert(joined(all, sep) =~= a + sep + joined(rest, sep));
    }
}

/// Pieces are never none, and joined with the separator they are the text from where
/// they begin.
proof fn pieces_join(s: Seq<char>, sep: Seq<char>, i: int)
    requires
        0 <= i <= s.len(),
        sep.len() > 0,
    ensures
        pieces(s, sep, i).len() > 0,
        joined(pieces(s, sep, i), sep) == s.skip(i),
    decreases s.len() - i,
{
    next_occurrence_within(s, sep, i);
    match next_occurrence(s, sep, i) {
        Some(j) => {
            found_occurs(s, sep, i);
            pieces_join(s, sep, j + sep.len());
            let rest = pieces(s, sep, j + sep.len());
            joined_front(s.subrange(i, j), rest, sep);
            assert(s.subrange(j, j + sep.len()) == sep);
            assert(s.subrange(i, j) + sep + s.skip(j + sep.len()) =~= s.skip(i));
        },
        None => {},
    }
}

/// An occurrence found is one.
proof fn found_occurs(s: Seq<char>, sep: Seq<char>, i: int)
    ensures
        next_occurrence(s, sep, i) matches Some(j) ==> occurs_at(s, sep, j),
    decreases s.len() + 1 - i,
{
    if 0 <= i && i + sep.len() <= s.len() && !occurs_at(s, sep, i) {
        found_occurs(s, sep, i + 1);
    }
}

/// Joining the parts of a split with its separator gives the text back.
pub proof fn join_undoes_split(s: Seq<char>, sep: Seq<char>)
    requires
        sep.len() > 0,
    ensures
        joined(parts_at(s, sep), sep) == s,
{
    pieces_join(s, sep, 0);
    assert(s.skip(0) =~= s);
}

/// The searches and the slices fit together: what is found is what a slice of that length
/// there cuts out, both searches find something or neither does, the first occurrence is
/// not behind the last, and no slice before the one or behind the other is the text.
pub proof fn searches_fit_slices(s: Seq<char>, sub: Seq<char>, first: int, last: int)
    requires
        is_first(s, sub, first),
        is_last(s, sub, last),
    ensures
        first == -1 <==> last == -1,
        first != -1 ==> {
            &&& 0 <= first <= last
            &&& last + sub.len() <= s.len()
            &&& sliced(s, first, first + sub.len()) == sub
            &&& sliced(s, last, last + sub.len()) == sub
        },
        forall|j: int|
            0 <= j < first ==> #[trigger] sliced(s, j, j + sub.len()) != sub,
        forall|j: int|
            last < j && 0 <= j && j + sub.len() <= s.len() ==> #[trigger] sliced(
                s,
                j,
                j + sub.len(),
            ) != sub,
{
    assert forall|j: int| 0 <= j && j + sub.len() <= s.len() implies (occurs_at(s, sub, j)
        <==> #[trigger] sliced(s, j, j + sub.len()) == sub) by {
        if sub.len() == 0 {
            assert(sub =~= seq![]);
            assert(s.subrange(j, j) =~= seq![]);
        }
    }
    if first != -1 {
        assert(occurs_at(s, sub, first));
        assert(occurs_at(s, sub, last));
    }
}

/// ASCII letters change between the two cases, one to one; everything else stays.
pub proof fn ascii_cases_swap(c: char)
    ensures
        97 <= (c as int) <= 122 ==> (ascii_upper(c) as int) == (c as int) - 32,
        65 <= (c as int) <= 90 ==> (ascii_lower(c) as int) == (c as int) + 32,
        !(97 <= (c as int) <= 122) ==> ascii_upper(c) == c,
        !(65 <= (c as int) <= 90) ==> ascii_lower(c) == c,
        ascii_lower(ascii_upper(c)) == ascii_lower(c),
        ascii_upper(ascii_lower(c)) == ascii_upper(c),
{
}

/// Casing goes character by character.
pub proof fn ascii_casing_is_piecewise(s: Seq<char>)
    ensures
        ascii_uppers(s).len() == s.len(),
        ascii_lowers(s).len() == s.len(),
        forall|i: int| 0 <= i < s.len() ==> #[trigger] ascii_uppers(s)[i] == ascii_upper(s[i]),
        forall|i: int| 0 <= i < s.len() ==> #[trigger] ascii_lowers(s)[i] == ascii_lower(s[i]),
{
}

/// Capitalizing touches the first character one way and the rest the other way.
pub proof fn capitals_come_first(c: char, t: Seq<char>)
    ensures
        capitalized(seq![c] + t) == char_uppercase(c) + lowercase(t),
        ascii_capitalized(seq![c] + t) == seq![ascii_upper(c)] + ascii_lowers(t),
        capitalized(Seq::<char>::empty()) == Seq::<char>::empty(),
        ascii_capitalized(Seq::<char>::empty()) == Seq::<char>::empty(),
{
    assert((seq![c] + t).skip(1) =~= t);
    assert((seq![c] + t)[0] == c);
}

/// A slice holds the characters from its start up to its end; an end beyond the text is
/// the text's own, and a start behind the end leaves nothing.
pub proof fn slices_hold_what_lies_between(s: Seq<char>, start: int, end: int)
    ensures
        0 <= start <= end <= s.len() ==> sliced(s, start, end).len() == end - start && (forall|
            i: int,
        |
            0 <= i < end - start ==> #[trigger] sliced(s, start, end)[i] == s[start + i]),
        end <= start ==> sliced(s, start, end).len() == 0,
        start < 0 ==> sliced(s, start, end) == sliced(s, 0, end),
        end > s.len() ==> sliced(s, start, end) == sliced(s, start, s.len() as int),
        start >= s.len() ==> sliced(s, start, end).len() == 0,
{
}

/// The search from a place finds the first occurrence at it or behind it.
proof fn next_is_first(s: Seq<char>, sep: Seq<char>, i: int)
    requires
        0 <= i,
    ensures
        match next_occurrence(s, sep, i) {
            Some(j) => i <= j && occurs_at(s, sep, j) && forall|k: int|
                i <= k < j ==> !#[trigger] occurs_at(s, sep, k),
            None => forall|k: int| i <= k ==> !#[trigger] occurs_at(s, sep, k),
        },
    decreases s.len() + 1 - i,
{
    if i + sep.len() > s.len() {
    } else if occurs_at(s, sep, i) {
    } else {
        next_is_first(s, sep, i + 1);
    }
}

/// An occurrence behind a cut is one of what is left.
proof fn occurs_behind(s: Seq<char>, sep: Seq<char>, k: int, i: int)
    requires
        0 <= k <= s.len(),
        0 <= i,
    ensures
        occurs_at(s.skip(k), sep, i) <==> occurs_at(s, sep, k + i),
{
    if k + i + sep.len() <= s.len() {
        assert(s.skip(k).subrange(i, i + sep.len()) =~= s.subrange(k + i, k + i + sep.len()));
    }
}

/// The search goes on behind a cut as it does in what is left.
proof fn next_behind(s: Seq<char>, sep: Seq<char>, k: int, i: int)
    requires
        0 <= k <= s.len(),
        0 <= i,
    ensures
        next_occurrence(s, sep, k + i) == match next_occurrence(s.skip(k), sep, i) {
            Some(j) => Some(k + j),
            None => None::<int>,
        },
    decreases s.len() + 1 - i,
{
    if k + i + sep.len() <= s.len() {
        occurs_behind(s, sep, k, i);
        if !occurs_at(s, sep, k + i) {
            next_behind(s, sep, k, i + 1);
            assert(k + (i + 1) == k + i + 1);
        }
    }
}

/// The pieces behind a cut are those of what is left.
proof fn pieces_behind(s: Seq<char>, sep: Seq<char>, k: int, i: int)
    requires
        0 <= k <= s.len(),
        0 <= i <= s.len() - k,
        sep.len() > 0,
    ensures
        pieces(s, sep, k + i) == pieces(s.skip(k), sep, i),
    decreases s.len() - i,
{
    next_behind(s, sep, k, i);
    next_occurrence_within(s.skip(k), sep, i);
    match next_occurrence(s.skip(k), sep, i) {
        Some(j) => {
            pieces_behind(s, sep, k, j + sep.len());
            assert(k + (j + sep.len()) == (k + j) + sep.len());
            assert(s.subrange(k + i, k + j) =~= s.skip(k).subrange(i, j));
        },
        None => {
            assert(s.skip(k + i) =~= s.skip(k).skip(i));
        },
    }
}

/// Splitting cuts at the first separator, and goes on the same way in what lies behind it;
/// a text without the separator is one part.
pub proof fn splitting_cuts_at_the_first(s: Seq<char>, sep: Seq<char>, r: int)
    requires
        sep.len() > 0,
        is_first(s, sep, r),
    ensures
        r == -1 ==> parts_at(s, sep) == seq![s],
        r != -1 ==> parts_at(s, sep) == seq![s.take(r)] + parts_at(s.skip(r + sep.len()), sep),
{
    next_is_first(s, sep, 0);
    if r == -1 {
        assert(s.skip(0) =~= s);
    } else {
        let j = next_occurrence(s, sep, 0)->Some_0;
        assert(next_occurrence(s, sep, 0) is Some);
        assert(j == r);
        assert(s.subrange(0, r) =~= s.take(r));
        pieces_behind(s, sep, r + sep.len() as int, 0);
    }
}

/// Splitting at nothing gives the single characters, between two empty parts.
pub proof fn splitting_at_nothing_gives_characters(s: Seq<char>)
    ensures
        ({
            let p = parts_at(s, Seq::<char>::empty());
            &&& p.len() == s.len() + 2
            &&& p[0].len() == 0
            &&& p.last().len() == 0
            &&& forall|i: int| 0 <= i < s.len() ==> #[trigger] p[i + 1] == seq![s[i]]
        }),
{
    singles_are_single(s, s.len() as int);
    let p = parts_at(s, Seq::<char>::empty());
    assert forall|i: int| 0 <= i < s.len() implies #[trigger] p[i + 1] == seq![s[i]] by {
        assert(p[i + 1] == single_chars(s, s.len() as int)[i]);
    }
}

/// Single characters are the text's, in order.
proof fn singles_are_single(s: Seq<char>, n: int)
    requires
        0 <= n <= s.len(),
    ensures
        single_chars(s, n).len() == n,
        forall|i: int| 0 <= i < n ==> #[trigger] single_chars(s, n)[i] == seq![s[i]],
    decreases n,
{
    if n > 0 {
        singles_are_single(s, n - 1);
        assert(s.subrange(n - 1, n) =~= seq![s[n - 1]]);
    }
}

/// Counting goes from occurrence to occurrence.
proof fn counting_jumps(s: Seq<char>, sep: Seq<char>, i: int)
    requires
        0 <= i,
        sep.len() > 0,
    ensures
        occurrences(s, sep, i) == match next_occurrence(s, sep, i) {
            Some(j) => 1 + occurrences(s, sep, j + sep.len()),
            None => 0,
        },
    decreases s.len() + 1 - i,
{
    if i + sep.len() <= s.len() && !occurs_at(s, sep, i) {
        counting_jumps(s, sep, i + 1);
    }
}

/// One part more than there are pieces counted.
proof fn pieces_are_counted(s: Seq<char>, sep: Seq<char>, i: int)
    requires
        0 <= i,
        sep.len() > 0,
    ensures
        pieces(s, sep, i).len() == occurrences(s, sep, i) + 1,
    decreases s.len() + 1 - i,
{
    counting_jumps(s, sep, i);
    next_occurrence_within(s, sep, i);
    match next_occurrence(s, sep, i) {
        Some(j) => pieces_are_counted(s, sep, j + sep.len() as int),
        None => {},
    }
}

/// A split has one part more than the separator is counted times.
pub proof fn counts_fit_splits(s: Seq<char>, sep: Seq<char>)
    requires
        sep.len() > 0,
    ensures
        parts_at(s, sep).len() == occurrences(s, sep, 0) + 1,
{
    pieces_are_counted(s, sep, 0);
}

/// Repeating runs through the text again and again.
pub proof fn repeats_run_through(s: Seq<char>, n: nat)
    ensures
        copies(s, n).len() == n * s.len(),
        forall|i: int|
            0 <= i < n * s.len() ==> #[trigger] copies(s, n)[i] == s[i % (s.len() as int)],
        times(n as int) == n,
        times(-(n as int)) == 0,
    decreases n,
{
    repeat_multiplies(s, n);
    if n > 0 {
        let m = (n - 1) as nat;
        repeats_run_through(s, m);
        repeat_multiplies(s, m);
        let l = s.len() as int;
        assert(n * l == m * l + l) by (nonlinear_arith)
            requires
                n == m + 1,
        ;
        assert forall|i: int| 0 <= i < n * s.len() implies #[trigger] copies(s, n)[i] == s[i % (
        s.len() as int)] by {
            if i >= m * l {
                let r = i - m * l;
                assert(i == l * m + r) by (nonlinear_arith)
                    requires
                        r == i - m * l,
                ;
                vstd::arithmetic::div_mod::lemma_mod_multiples_vanish(m as int, r, l);
                vstd::arithmetic::div_mod::lemma_small_mod(r as nat, l as nat);
            } else {
                assert(copies(s, n)[i] == copies(s, m)[i]);
            }
        }
    }
}

/// What is cycled is the text, character after character, begun anew at its end.
proof fn cycles_run_through(p: Seq<char>, n: nat)
    requires
        p.len() > 0,
    ensures
        cycled(p, n).len() == n,
        forall|i: int| 0 <= i < n ==> #[trigger] cycled(p, n)[i] == p[i % (p.len() as int)],
    decreases n,
{
    if n > 0 {
        cycles_run_through(p, (n - 1) as nat);
    }
}

/// Padding leaves the text whole: at the end when padding the start, at the start when
/// padding the end. The rest is the pad, from its first character on.
pub proof fn padding_keeps_the_text(s: Seq<char>, width: int, pad: Seq<char>)
    requires
        pad.len() > 0,
        width > s.len(),
    ensures
        padded_start(s, width, pad).skip(width - s.len()) == s,
        padded_end(s, width, pad).take(s.len() as int) == s,
        forall|i: int|
            0 <= i < width - s.len() ==> #[trigger] padded_start(s, width, pad)[i] == pad[i % (
            pad.len() as int)],
        forall|i: int|
            0 <= i < width - s.len() ==> #[trigger] padded_end(s, width, pad)[s.len() + i] == pad[i
                % (pad.len() as int)],
{
    cycles_run_through(pad, (width - s.len()) as nat);
    assert(padded_start(s, width, pad).skip(width - s.len()) =~= s);
    assert(padded_end(s, width, pad).take(s.len() as int) =~= s);
}

/// White are the characters that Unicode counts as white space.
pub proof fn white_space_is(c: char)
    ensures
        is_white(c) <==> c == ' ' || c == '\t' || c == '\n' || c == '\r' || c == '\u{b}' || c
            == '\u{c}' || c == '\u{85}' || c == '\u{a0}' || c == '\u{1680}' || c == '\u{2000}' || c
            == '\u{2001}' || c == '\u{2002}' || c == '\u{2003}' || c == '\u{2004}' || c
            == '\u{2005}' || c == '\u{2006}' || c == '\u{2007}' || c == '\u{2008}' || c
            == '\u{2009}' || c == '\u{200a}' || c == '\u{2028}' || c == '\u{2029}' || c
            == '\u{202f}' || c == '\u{205f}' || c == '\u{3000}',
{
}

/// White space in front goes, up to the first other character.
proof fn left_white_goes(w: Seq<char>, t: Seq<char>)
    requires
        forall|i: int| 0 <= i < w.len() ==> is_white(#[trigger] w[i]),
        t.len() > 0 ==> !is_white(t[0]),
    ensures
        left_trimmed(w + t) == t,
    decreases w.len(),
{
    if w.len() == 0 {
        assert(w + t =~= t);
    } else {
        assert(is_white(w[0]));
        assert((w + t).skip(1) =~= w.skip(1) + t);
        left_white_goes(w.skip(1), t);
    }
}

/// White space behind goes, down to the last other character.
proof fn right_white_goes(t: Seq<char>, w: Seq<char>)
    requires
        forall|i: int| 0 <= i < w.len() ==> is_white(#[trigger] w[i]),
        t.len() > 0 ==> !is_white(t.last()),
    ensures
        right_trimmed(t + w) == t,
    decreases w.len(),
{
    if w.len() == 0 {
        assert(t + w =~= t);
    } else {
        assert(is_white(w.last()));
        assert((t + w).drop_last() =~= t + w.drop_last());
        right_white_goes(t, w.drop_last());
    }
}

/// Trimming takes the white space off both ends and nothing else: what begins and ends
/// with another character comes out whole, whatever white space stood around it.
pub proof fn trimming_takes_the_white_ends(v: Seq<char>, t: Seq<char>, w: Seq<char>)
    requires
        forall|i: int| 0 <= i < v.len() ==> is_white(#[trigger] v[i]),
        forall|i: int| 0 <= i < w.len() ==> is_white(#[trigger] w[i]),
        t.len() > 0 ==> !is_white(t[0]) && !is_white(t.last()),
    ensures
        trimmed(v + t + w) == t,
        t.len() > 0 ==> left_trimmed(v + t + w) == t + w,
        right_trimmed(v + t + w) == if t.len() > 0 {
            v + t
        } else {
            t
        },
{
    let empty = Seq::<char>::empty();
    if t.len() > 0 {
        assert(v + t + w =~= v + (t + w));
        left_white_goes(v, t + w);
        right_white_goes(t, w);
        right_white_goes(v + t, w);
    } else {
        let a = v + t + w;
        assert forall|i: int| 0 <= i < a.len() implies is_white(#[trigger] a[i]) by {
            if i < v.len() {
                assert(a[i] == v[i]);
            } else {
                assert(a[i] == w[i - v.len()]);
            }
        }
        assert(a + empty =~= a);
        left_white_goes(a, empty);
        assert(empty + a =~= a);
        right_white_goes(empty, a);
        assert(right_trimmed(empty) =~= empty);
        assert(t =~= empty);
    }
}

} // verus!
