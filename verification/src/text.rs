//! Text primitives: strings as sequences of characters, searching, ordering and
//! decimal rendering.
//!
//! A `str` and a `String` are specified by their view, a `Seq<char>`. Everything
//! here is stated over those sequences, so an index is always a character index.

use vstd::prelude::*;

verus! {

/// `String::push` appends one character.
pub assume_specification[ String::push ](s: &mut String, c: char)
    ensures
        final(s)@ == old(s)@.push(c),
;

/// The characters of `s`, in order.
pub fn chars_of(s: &str) -> (v: Vec<char>)
    ensures
        v@ == s@,
{
    let mut v: Vec<char> = Vec::new();
    for c in it: s.chars()
        invariant
            v@ == it.seq().subrange(0, it.index()),
            it.seq() == s@,
    {
        v.push(c);
    }
    v
}

/// Append the characters `v[from..to]` to `out`.
pub fn push_range(out: &mut String, v: &[char], from: usize, to: usize)
    requires
        from <= to <= v@.len(),
    ensures
        final(out)@ == old(out)@ + v@.subrange(from as int, to as int),
{
    let mut i: usize = from;
    while i < to
        invariant
            from <= i <= to <= v@.len(),
            out@ == old(out)@ + v@.subrange(from as int, i as int),
        decreases to - i,
    {
        out.push(v[i]);
        i += 1;
        assert(v@.subrange(from as int, i as int) =~= v@.subrange(from as int, i - 1).push(v@[i - 1]));
    }
}

/// The string made of `v[from..to]`.
pub fn string_of_range(v: &[char], from: usize, to: usize) -> (s: String)
    requires
        from <= to <= v@.len(),
    ensures
        s@ == v@.subrange(from as int, to as int),
{
    let mut s: String = String::new();
    push_range(&mut s, v, from, to);
    s
}

/// The string made of all of `v`.
pub fn string_of(v: &[char]) -> (s: String)
    ensures
        s@ == v@,
{
    string_of_range(v, 0, v.len())
}

/// Whether `a` and `b` hold the same text.
pub fn str_eq(a: &str, b: &str) -> (r: bool)
    ensures
        r == (a@ == b@),
{
    a.to_owned() == b.to_owned()
}

// ── Searching ────────────────────────────────────────────────────────────────

/// `needle` stands in `hay` at character index `i`.
pub open spec fn occurs_at(hay: Seq<char>, needle: Seq<char>, i: int) -> bool {
    0 <= i && i + needle.len() <= hay.len() && hay.subrange(i, i + needle.len()) == needle
}

/// `needle` stands somewhere in `hay`.
pub open spec fn contains_seq(hay: Seq<char>, needle: Seq<char>) -> bool {
    exists|i: int| occurs_at(hay, needle, i)
}

/// `hay` begins with `prefix`.
pub open spec fn starts_with_seq(hay: Seq<char>, prefix: Seq<char>) -> bool {
    occurs_at(hay, prefix, 0)
}

/// `hay` ends with `suffix`.
pub open spec fn ends_with_seq(hay: Seq<char>, suffix: Seq<char>) -> bool {
    occurs_at(hay, suffix, hay.len() - suffix.len())
}

/// Whether `needle` stands in `hay` at index `i`.
pub fn matches_at(hay: &[char], needle: &[char], i: usize) -> (r: bool)
    ensures
        r == occurs_at(hay@, needle@, i as int),
{
    let n: usize = needle.len();
    let h: usize = hay.len();
    if i > h || h - i < n {
        return false;
    }
    let mut k: usize = 0;
    while k < n
        invariant
            k <= n,
            n == needle@.len(),
            h == hay@.len(),
            i + n <= h,
            forall|j: int| 0 <= j < k ==> hay@[i + j] == needle@[j],
        decreases n - k,
    {
        if hay[i + k] != needle[k] {
            assert(hay@.subrange(i as int, i + needle@.len())[k as int] != needle@[k as int]);
            return false;
        }
        k += 1;
    }
    assert(hay@.subrange(i as int, i + needle@.len()) =~= needle@);
    true
}

/// The first index at or after `from` at which `needle` stands in `hay`.
pub fn find_from(hay: &[char], needle: &[char], from: usize) -> (r: Option<usize>)
    ensures
        match r {
            Some(i) => {
                &&& from <= i
                &&& occurs_at(hay@, needle@, i as int)
                &&& forall|j: int| from <= j < i ==> !occurs_at(hay@, needle@, j)
            },
            None => forall|j: int| from <= j ==> !occurs_at(hay@, needle@, j),
        },
{
    let mut i: usize = from;
    while i <= hay.len()
        invariant
            from <= i,
            forall|j: int| from <= j < i ==> !occurs_at(hay@, needle@, j),
        decreases hay@.len() + 1 - i,
    {
        if matches_at(hay, needle, i) {
            return Some(i);
        }
        if i == hay.len() {
            return None;
        }
        i += 1;
    }
    None
}

/// The last index at which `needle` stands in `hay`.
pub fn find_last(hay: &[char], needle: &[char]) -> (r: Option<usize>)
    ensures
        match r {
            Some(i) => {
                &&& occurs_at(hay@, needle@, i as int)
                &&& forall|j: int| i < j ==> !occurs_at(hay@, needle@, j)
            },
            None => forall|j: int| !occurs_at(hay@, needle@, j),
        },
{
    let mut i: usize = hay.len();
    loop
        invariant
            i <= hay@.len(),
            forall|j: int| i < j ==> !occurs_at(hay@, needle@, j),
        decreases i,
    {
        if matches_at(hay, needle, i) {
            return Some(i);
        }
        if i == 0 {
            return None;
        }
        i -= 1;
    }
}

/// Whether `needle` stands anywhere in `hay`.
pub fn str_contains(hay: &str, needle: &str) -> (r: bool)
    ensures
        r == contains_seq(hay@, needle@),
{
    let h = chars_of(hay);
    let n = chars_of(needle);
    match find_from(h.as_slice(), n.as_slice(), 0) {
        Some(i) => {
            assert(occurs_at(hay@, needle@, i as int));
            true
        },
        None => {
            assert forall|j: int| !occurs_at(hay@, needle@, j) by {
                if j >= 0 {
                    assert(!occurs_at(h@, n@, j));
                }
            }
            false
        },
    }
}

/// Whether `hay` begins with `prefix`.
pub fn str_starts_with(hay: &str, prefix: &str) -> (r: bool)
    ensures
        r == starts_with_seq(hay@, prefix@),
{
    let h = chars_of(hay);
    let p = chars_of(prefix);
    matches_at(h.as_slice(), p.as_slice(), 0)
}

/// Whether `hay` ends with `suffix`.
pub fn str_ends_with(hay: &str, suffix: &str) -> (r: bool)
    ensures
        r == ends_with_seq(hay@, suffix@),
{
    let h = chars_of(hay);
    let p = chars_of(suffix);
    if p.len() > h.len() {
        return false;
    }
    matches_at(h.as_slice(), p.as_slice(), h.len() - p.len())
}

/// The index of the first `c` in `s`.
pub fn find_char(s: &[char], c: char) -> (r: Option<usize>)
    ensures
        match r {
            Some(i) => i < s@.len() && s@[i as int] == c && forall|j: int|
                0 <= j < i ==> s@[j] != c,
            None => forall|j: int| 0 <= j < s@.len() ==> s@[j] != c,
        },
{
    let mut i: usize = 0;
    while i < s.len()
        invariant
            i <= s@.len(),
            forall|j: int| 0 <= j < i ==> s@[j] != c,
        decreases s@.len() - i,
    {
        if s[i] == c {
            return Some(i);
        }
        i += 1;
    }
    None
}

/// The index of the last `c` in `s`.
pub fn find_last_char(s: &[char], c: char) -> (r: Option<usize>)
    ensures
        match r {
            Some(i) => i < s@.len() && s@[i as int] == c && forall|j: int|
                i < j < s@.len() ==> s@[j] != c,
            None => forall|j: int| 0 <= j < s@.len() ==> s@[j] != c,
        },
{
    let mut i: usize = s.len();
    while i > 0
        invariant
            i <= s@.len(),
            forall|j: int| i <= j < s@.len() ==> s@[j] != c,
        decreases i,
    {
        i -= 1;
        if s[i] == c {
            return Some(i);
        }
    }
    None
}

// ── Ordering ─────────────────────────────────────────────────────────────────

/// `a` comes before `b` in lexicographic order of scalar values, a proper prefix
/// first. This is the order of the UTF-8 encodings too.
pub open spec fn lex_less(a: Seq<char>, b: Seq<char>) -> bool
    decreases a.len(),
{
    if b.len() == 0 {
        false
    } else if a.len() == 0 {
        true
    } else if a[0] != b[0] {
        (a[0] as int) < (b[0] as int)
    } else {
        lex_less(a.skip(1), b.skip(1))
    }
}

/// `a` is `b` or comes before it.
pub open spec fn lex_le(a: Seq<char>, b: Seq<char>) -> bool {
    a == b || lex_less(a, b)
}

/// The order is irreflexive.
pub proof fn lex_irreflexive(a: Seq<char>)
    ensures
        !lex_less(a, a),
    decreases a.len(),
{
    if a.len() > 0 {
        lex_irreflexive(a.skip(1));
    }
}

/// The order is transitive.
pub proof fn lex_transitive(a: Seq<char>, b: Seq<char>, c: Seq<char>)
    requires
        lex_less(a, b),
        lex_less(b, c),
    ensures
        lex_less(a, c),
    decreases a.len(),
{
    if a.len() > 0 && a[0] == b[0] && b[0] == c[0] {
        lex_transitive(a.skip(1), b.skip(1), c.skip(1));
    }
}

/// Any two texts are equal or ordered one way.
pub proof fn lex_total(a: Seq<char>, b: Seq<char>)
    ensures
        a == b || lex_less(a, b) || lex_less(b, a),
    decreases a.len(),
{
    if a.len() > 0 && b.len() > 0 && a[0] == b[0] {
        lex_total(a.skip(1), b.skip(1));
        if a.skip(1) == b.skip(1) {
            assert(a =~= seq![a[0]] + a.skip(1));
            assert(b =~= seq![b[0]] + b.skip(1));
        }
    } else if a.len() == 0 && b.len() == 0 {
        assert(a =~= b);
    }
}

/// Dropping a shared prefix keeps the order.
proof fn lex_skip(a: Seq<char>, b: Seq<char>, k: int)
    requires
        0 <= k <= a.len(),
        k <= b.len(),
        a.take(k) == b.take(k),
    ensures
        lex_less(a, b) == lex_less(a.skip(k), b.skip(k)),
    decreases k,
{
    if k == 0 {
        assert(a.skip(0) =~= a);
        assert(b.skip(0) =~= b);
    } else {
        assert(a[0] == a.take(k)[0]);
        assert(b[0] == b.take(k)[0]);
        assert(a.skip(1).take(k - 1) =~= a.take(k).skip(1));
        assert(b.skip(1).take(k - 1) =~= b.take(k).skip(1));
        lex_skip(a.skip(1), b.skip(1), k - 1);
        assert(a.skip(1).skip(k - 1) =~= a.skip(k));
        assert(b.skip(1).skip(k - 1) =~= b.skip(k));
    }
}

/// Whether the scalar value of `a` is below that of `b`.
pub fn char_less(a: char, b: char) -> (r: bool)
    ensures
        r == ((a as int) < (b as int)),
{
    (a as u32) < (b as u32)
}

/// Whether `a` comes before `b`.
pub fn str_less(a: &str, b: &str) -> (r: bool)
    ensures
        r == lex_less(a@, b@),
{
    let x = chars_of(a);
    let y = chars_of(b);
    let mut i: usize = 0;
    while i < x.len() && i < y.len()
        invariant
            i <= x@.len(),
            i <= y@.len(),
            x@ == a@,
            y@ == b@,
            x@.take(i as int) == y@.take(i as int),
        decreases x@.len() - i,
    {
        if x[i] != y[i] {
            proof {
                lex_skip(x@, y@, i as int);
            }
            return char_less(x[i], y[i]);
        }
        i += 1;
        assert(x@.take(i as int) =~= x@.take(i - 1).push(x@[i - 1]));
        assert(y@.take(i as int) =~= y@.take(i - 1).push(y@[i - 1]));
    }
    proof {
        lex_skip(x@, y@, i as int);
    }
    i < y.len()
}

// ── Decimal text ─────────────────────────────────────────────────────────────

/// The decimal digit `d`.
pub open spec fn digit_char(d: int) -> char {
    (48 + d) as char
}

/// The decimal digits of `n`, without leading zeros; `"0"` for zero.
pub open spec fn decimal_nat(n: nat) -> Seq<char>
    decreases n,
{
    if n < 10 {
        seq![digit_char(n as int)]
    } else {
        decimal_nat(n / 10).push(digit_char((n % 10) as int))
    }
}

/// The decimal text of an integer, with a leading `-` when it is negative.
pub open spec fn decimal(i: int) -> Seq<char> {
    if i < 0 {
        seq!['-'] + decimal_nat((-i) as nat)
    } else {
        decimal_nat(i as nat)
    }
}

/// The digits of `n` as characters.
pub fn digits_of(n: u64) -> (v: Vec<char>)
    ensures
        v@ == decimal_nat(n as nat),
{
    let mut rev: Vec<char> = Vec::new();
    let mut rest: u64 = n;
    while rest >= 10
        invariant
            decimal_nat(n as nat) == decimal_nat(rest as nat) + rev@.reverse(),
        decreases rest,
    {
        let d: u8 = (rest % 10) as u8;
        let ghost before = rev@;
        rev.push((48u8 + d) as char);
        proof {
            assert(rev@.reverse() =~= seq![digit_char(d as int)] + before.reverse());
            assert(decimal_nat(rest as nat) == decimal_nat((rest / 10) as nat).push(
                digit_char((rest % 10) as int),
            ));
        }
        rest = rest / 10;
        assert(decimal_nat(n as nat) =~= decimal_nat(rest as nat) + rev@.reverse());
    }
    let mut out: Vec<char> = Vec::new();
    out.push((48u8 + rest as u8) as char);
    let mut i: usize = rev.len();
    while i > 0
        invariant
            i <= rev@.len(),
            out@ == seq![digit_char(rest as int)] + rev@.skip(i as int).reverse(),
        decreases i,
    {
        i -= 1;
        out.push(rev[i]);
        assert(rev@.skip(i as int).reverse() =~= rev@.skip(i + 1).reverse().push(rev@[i as int]));
    }
    assert(rev@.skip(0) =~= rev@);
    out
}

/// The decimal text of `n`.
pub fn nat_text(n: u64) -> (s: String)
    ensures
        s@ == decimal_nat(n as nat),
{
    let v = digits_of(n);
    string_of(v.as_slice())
}

/// The decimal text of `i`.
pub fn int_text(i: i64) -> (s: String)
    ensures
        s@ == decimal(i as int),
{
    if i < 0 {
        let mut s: String = String::new();
        s.push('-');
        let m: u64 = (-(i as i128)) as u64;
        let v = digits_of(m);
        push_range(&mut s, v.as_slice(), 0, v.len());
        assert(s@ =~= seq!['-'] + decimal_nat((-(i as int)) as nat));
        s
    } else {
        nat_text(i as u64)
    }
}

// ── Joining ──────────────────────────────────────────────────────────────────

/// The texts of `parts`, `sep` between neighbours.
pub open spec fn joined(parts: Seq<Seq<char>>, sep: Seq<char>) -> Seq<char>
    decreases parts.len(),
{
    if parts.len() == 0 {
        seq![]
    } else if parts.len() == 1 {
        parts[0]
    } else {
        joined(parts.drop_last(), sep) + sep + parts.last()
    }
}

/// The texts of a sequence of strings.
pub open spec fn texts(v: Seq<String>) -> Seq<Seq<char>> {
    Seq::new(v.len(), |i: int| v[i]@)
}

/// Join `parts` with `sep` between neighbours.
pub fn join(parts: &[String], sep: &str) -> (s: String)
    ensures
        s@ == joined(texts(parts@), sep@),
{
    let mut s: String = String::new();
    let mut i: usize = 0;
    while i < parts.len()
        invariant
            i <= parts@.len(),
            s@ == joined(texts(parts@).take(i as int), sep@),
        decreases parts@.len() - i,
    {
        if i > 0 {
            s.append(sep);
        }
        s.append(parts[i].as_str());
        i += 1;
        assert(texts(parts@).take(i as int).drop_last() =~= texts(parts@).take(i - 1));
    }
    assert(texts(parts@).take(i as int) =~= texts(parts@));
    s
}

// ── Laws ─────────────────────────────────────────────────────────────────────

/// Joining is piecewise: one part stands alone, and two runs of parts are joined with one
/// separator between them.
pub proof fn joining_is_piecewise(a: Seq<Seq<char>>, b: Seq<Seq<char>>, p: Seq<char>, sep: Seq<char>)
    ensures
        joined(seq![], sep) == Seq::<char>::empty(),
        joined(seq![p], sep) == p,
        a.len() > 0 && b.len() > 0 ==> joined(a + b, sep) == joined(a, sep) + sep + joined(b, sep),
    decreases b.len(),
{
    assert(seq![p][0] == p);
    if a.len() > 0 && b.len() > 0 {
        let all = a + b;
        assert(all.drop_last() =~= a + b.drop_last());
        assert(all.last() == b.last());
        if b.len() == 1 {
            assert(b.drop_last() =~= seq![]);
            assert(a + b.drop_last() =~= a);
            assert(joined(b, sep) == b[0]);
        } else {
            joining_is_piecewise(a, b.drop_last(), p, sep);
            assert(joined(all, sep) =~= joined(a, sep) + sep + joined(b, sep));
        }
    }
}

/// One text comes before another exactly where it is a proper beginning of it, or has the
/// smaller character where the two first differ.
pub proof fn texts_order_at_the_first_difference(a: Seq<char>, b: Seq<char>, k: int)
    requires
        0 <= k <= a.len(),
        k <= b.len(),
        forall|i: int| 0 <= i < k ==> a[i] == b[i],
        k < a.len() && k < b.len() ==> a[k] != b[k],
    ensures
        lex_less(a, b) <==> k < b.len() && (k == a.len() || (a[k] as int) < (b[k] as int)),
    decreases k,
{
    if k > 0 {
        let c = a.skip(1);
        let d = b.skip(1);
        assert forall|i: int| 0 <= i < k - 1 implies c[i] == d[i] by {
            assert(a[i + 1] == b[i + 1]);
        }
        texts_order_at_the_first_difference(c, d, k - 1);
    }
}

/// The number that decimal digits spell.
pub open spec fn spelled(s: Seq<char>) -> int
    decreases s.len(),
{
    if s.len() == 0 {
        0
    } else {
        10 * spelled(s.drop_last()) + (s.last() as int - '0' as int)
    }
}

/// Decimal digits spell their number, without a zero in front; a negative number has a
/// sign before the digits of its magnitude.
pub proof fn decimals_read_back(n: nat)
    ensures
        spelled(decimal_nat(n)) == n,
        decimal_nat(n).len() > 0,
        forall|i: int|
            0 <= i < decimal_nat(n).len() ==> '0' <= #[trigger] decimal_nat(n)[i] <= '9',
        n > 0 ==> decimal_nat(n)[0] != '0',
        decimal(n as int) == decimal_nat(n),
        n > 0 ==> decimal(-(n as int)) == seq!['-'] + decimal_nat(n),
    decreases n,
{
    if n < 10 {
        let s = decimal_nat(n);
        assert(s.drop_last() =~= seq![]);
        reveal_with_fuel(spelled, 2);
    } else {
        decimals_read_back(n / 10);
        let s = decimal_nat(n);
        assert(s.drop_last() =~= decimal_nat(n / 10));
        assert(s.last() == digit_char((n % 10) as int));
        assert(n == 10 * (n / 10) + n % 10);
        assert(s[0] == decimal_nat(n / 10)[0]);
    }
}

/// A text begins with another exactly where it is that one with something behind it, ends
/// with it where something stands before it, and holds it where both.
pub proof fn parts_of_texts(a: Seq<char>, b: Seq<char>, c: Seq<char>, s: Seq<char>, t: Seq<char>)
    ensures
        starts_with_seq(b + c, b),
        ends_with_seq(a + b, b),
        contains_seq(a + b + c, b),
        starts_with_seq(s, t) ==> s == t + s.skip(t.len() as int),
        ends_with_seq(s, t) ==> s == s.take(s.len() - t.len()) + t,
        contains_seq(s, t) ==> exists|i: int|
            0 <= i && i + t.len() <= s.len() && s == s.take(i) + t + #[trigger] s.skip(i + t.len()),
{
    assert((b + c).subrange(0, b.len() as int) =~= b);
    assert((a + b).subrange(a.len() as int, (a + b).len() as int) =~= b);
    assert((a + b + c).subrange(a.len() as int, (a.len() + b.len()) as int) =~= b);
    assert(occurs_at(a + b + c, b, a.len() as int));
    if starts_with_seq(s, t) {
        assert(s =~= t + s.skip(t.len() as int));
    }
    if ends_with_seq(s, t) {
        assert(s =~= s.take(s.len() - t.len()) + t);
    }
    if contains_seq(s, t) {
        let i = choose|i: int| occurs_at(s, t, i);
        assert(s =~= s.take(i) + t + s.skip(i + t.len()));
    }
}

} // verus!
