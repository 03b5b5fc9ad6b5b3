//! String values in the dynamic operations: comparison, and truth.
//!
//! Comparison is bounded: a text of [`CAP`] bytes or more is not a well-formed string
//! value, equals nothing, and orders as equal.

use vstd::prelude::*;

use crate::text::{chars_of, str_eq, str_less};
#[allow(unused_imports)]
use crate::text::{lex_irreflexive, lex_less, lex_total};

verus! {

/// How far the comparisons look, in bytes.
pub const CAP: usize = 0x10_0000;

/// The text is short enough to be a string value.
pub open spec fn in_cap(s: Seq<char>) -> bool {
    vstd::utf8::encode_utf8(s).len() < CAP
}

/// Whether two string values are equal.
pub open spec fn spec_eq(a: Seq<char>, b: Seq<char>) -> bool {
    in_cap(a) && in_cap(b) && a == b
}

/// How two string values order: -1, 0 or 1.
pub open spec fn spec_order(a: Seq<char>, b: Seq<char>) -> int {
    if !in_cap(a) || !in_cap(b) {
        0
    } else if lex_less(a, b) {
        -1
    } else if lex_less(b, a) {
        1
    } else {
        0
    }
}

/// Whether the text is short enough to be a string value.
fn fits(s: &str) -> (r: bool)
    ensures
        r == in_cap(s@),
{
    let b = s.as_bytes();
    b.len() < CAP
}

/// Whether two string values are equal.
pub fn eq_bounded(a: &str, b: &str) -> (r: bool)
    ensures
        r == spec_eq(a@, b@),
{
    fits(a) && fits(b) && str_eq(a, b)
}

/// How two string values order: -1, 0 or 1; a proper prefix comes first.
pub fn cmp_bounded(a: &str, b: &str) -> (r: i32)
    ensures
        r == spec_order(a@, b@),
{
    if !fits(a) || !fits(b) {
        return 0;
    }
    if str_less(a, b) {
        -1
    } else if str_less(b, a) {
        1
    } else {
        0
    }
}

/// `c` is `l` or its capital, for a small letter `l`.
pub open spec fn is_letter(c: char, l: char) -> bool {
    c == l || (c as int) + 32 == (l as int)
}

/// The text spells `false`, in any case.
pub open spec fn spells_false(s: Seq<char>) -> bool {
    &&& s.len() == 5
    &&& is_letter(s[0], 'f')
    &&& is_letter(s[1], 'a')
    &&& is_letter(s[2], 'l')
    &&& is_letter(s[3], 's')
    &&& is_letter(s[4], 'e')
}

/// Whether `c` is `l` or its capital.
fn letter(c: char, l: char, capital: char) -> (r: bool)
    requires
        (capital as int) + 32 == (l as int),
    ensures
        r == is_letter(c, l),
{
    c == l || c == capital
}

/// The truth of a string value: an empty text and any spelling of `false` are false,
/// every other text is true.
pub fn bool_of(s: &str) -> (r: bool)
    ensures
        r == (s@.len() > 0 && !spells_false(s@)),
{
    let v = chars_of(s);
    if v.len() == 0 {
        return false;
    }
    if v.len() != 5 {
        return true;
    }
    !(letter(v[0], 'f', 'F') && letter(v[1], 'a', 'A') && letter(v[2], 'l', 'L') && letter(
        v[3],
        's',
        'S',
    ) && letter(v[4], 'e', 'E'))
}

/// Within the bound, ordering as equal is being equal, and swapping the operands
/// flips the order.
pub proof fn order_is_antisymmetric(a: Seq<char>, b: Seq<char>)
    requires
        in_cap(a),
        in_cap(b),
    ensures
        spec_order(a, b) == 0 <==> a == b,
        spec_order(a, b) == -spec_order(b, a),
{
    lex_total(a, b);
    lex_irreflexive(a);
    if lex_less(a, b) && lex_less(b, a) {
        crate::text::lex_transitive(a, b, a);
    }
}

/// Texts within the bound compare as texts do; one beyond it equals nothing, not even
/// itself, and has no place in the order.
pub proof fn bounded_comparison_is_comparison(a: Seq<char>, b: Seq<char>)
    ensures
        vstd::utf8::encode_utf8(a).len() < CAP && vstd::utf8::encode_utf8(b).len() < CAP ==> {
            &&& spec_eq(a, b) <==> a == b
            &&& spec_order(a, b) == -1 <==> lex_less(a, b)
            &&& spec_order(a, b) == 1 <==> lex_less(b, a)
        },
        vstd::utf8::encode_utf8(a).len() >= CAP || vstd::utf8::encode_utf8(b).len() >= CAP
            ==> !spec_eq(a, b) && spec_order(a, b) == 0,
{
    if in_cap(a) && in_cap(b) {
        order_is_antisymmetric(a, b);
    }
}

/// A text is taken for false where its small letters spell `false`, in whatever case.
pub proof fn false_is_spelled_in_any_case(s: Seq<char>)
    ensures
        spells_false(s) <==> s.len() == 5 && (s[0] == 'f' || s[0] == 'F') && (s[1] == 'a' || s[1]
            == 'A') && (s[2] == 'l' || s[2] == 'L') && (s[3] == 's' || s[3] == 'S') && (s[4] == 'e'
            || s[4] == 'E'),
{
}

} // verus!
