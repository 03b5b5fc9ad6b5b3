//! The boundary with NUL-terminated text: octets in, tagged strings out.
//!
//! One rule holds for octets that are not text: reading stops at the first bad one, and
//! everything before it is kept.

use vstd::prelude::*;

use crate::bytesf::utf8_text;
use crate::string::TaggedStr;
#[allow(unused_imports)]
use crate::string::{no_zero, until_zero};
#[allow(unused_imports)]
use crate::bytesf::valid_up_to;

verus! {

/// The octets before the first zero, or all of them.
pub open spec fn until_nul(bytes: Seq<u8>) -> Seq<u8>
    decreases bytes.len(),
{
    if bytes.len() == 0 || bytes[0] == 0 {
        seq![]
    } else {
        seq![bytes[0]] + until_nul(bytes.skip(1))
    }
}

/// What the octets before the first zero are: the longest prefix without one.
proof fn until_nul_is(bytes: Seq<u8>, n: int)
    requires
        0 <= n <= bytes.len(),
        forall|i: int| 0 <= i < n ==> bytes[i] != 0,
        n == bytes.len() || bytes[n] == 0,
    ensures
        until_nul(bytes) == bytes.take(n),
    decreases n,
{
    if n > 0 {
        let rest = bytes.skip(1);
        assert(forall|i: int| 0 <= i < n - 1 ==> rest[i] == bytes[i + 1]);
        until_nul_is(rest, n - 1);
        assert(seq![bytes[0]] + rest.take(n - 1) =~= bytes.take(n));
    } else {
        assert(bytes.take(0) =~= seq![]);
    }
}

/// There is no zero among the octets before the first one.
pub proof fn no_nul_before_nul(bytes: Seq<u8>)
    ensures
        !until_nul(bytes).contains(0u8),
    decreases bytes.len(),
{
    if bytes.len() > 0 && bytes[0] != 0 {
        let rest = until_nul(bytes.skip(1));
        no_nul_before_nul(bytes.skip(1));
        assert forall|i: int| 0 <= i < until_nul(bytes).len() implies until_nul(bytes)[i] != 0 by {
            if i > 0 {
                assert(until_nul(bytes)[i] == rest[i - 1]);
                assert(rest.contains(rest[i - 1]));
            }
        }
    }
}

/// The number of octets before the first zero.
fn length(bytes: &[u8]) -> (n: usize)
    ensures
        n <= bytes@.len(),
        until_nul(bytes@) == bytes@.take(n as int),
{
    let mut i: usize = 0;
    while i < bytes.len() && bytes[i] != 0
        invariant
            i <= bytes@.len(),
            forall|k: int| 0 <= k < i ==> bytes@[k] != 0,
        decreases bytes@.len() - i,
    {
        i += 1;
    }
    proof {
        until_nul_is(bytes@, i as int);
    }
    i
}

/// The octets of a terminated buffer; no buffer has none. What they mean does not
/// matter here.
pub fn borrow_bytes(p: Option<&[u8]>) -> (r: &[u8])
    ensures
        r@ == (match p {
            Some(b) => until_nul(b@),
            None => Seq::<u8>::empty(),
        }),
{
    match p {
        Some(b) => {
            let n: usize = length(b);
            let r = vstd::slice::slice_subrange(b, 0, n);
            assert(r@ =~= b@.take(n as int));
            r
        },
        None => {
            let e: &[u8] = &[];
            assert(e@ =~= Seq::<u8>::empty());
            e
        },
    }
}

/// `t` is the text of the longest valid prefix of the octets.
pub open spec fn reads_as(bytes: Seq<u8>, t: Seq<char>) -> bool {
    exists|n: int| #[trigger]
        valid_up_to(bytes, n) && t == vstd::utf8::decode_utf8(bytes.take(n))
}

/// The text of a terminated buffer: the longest valid prefix of its octets. No buffer
/// is the empty text.
pub fn to_string(p: Option<&[u8]>) -> (s: String)
    ensures
        reads_as(
            match p {
                Some(b) => until_nul(b@),
                None => Seq::<u8>::empty(),
            },
            s@,
        ),
{
    let bytes = borrow_bytes(p);
    let ghost all = bytes@;
    match utf8_text(bytes) {
        Ok(s) => {
            proof {
                assert(all.take(all.len() as int) =~= all);
                assert(valid_up_to(all, all.len() as int));
            }
            s
        },
        Err(n) => {
            let head = vstd::slice::slice_subrange(bytes, 0, n);
            assert(head@ =~= all.take(n as int));
            assert(valid_up_to(all, n as int));
            match utf8_text(head) {
                Ok(s) => s,
                Err(_) => String::new(),
            }
        },
    }
}

/// A tagged string of a text, which ends at its first zero character.
pub fn emit_str(s: &str, trust: u8) -> (r: TaggedStr)
    ensures
        emits(r, s@, trust),
{
    TaggedStr::dup(s, trust)
}

/// The text of a string that may be absent: an absent one is empty.
pub open spec fn text_or_empty(s: Option<&TaggedStr>) -> Seq<char> {
    match s {
        Some(x) => x.text@,
        None => seq![],
    }
}

/// The trust of a string that may be absent: an absent one is trusted.
pub open spec fn trust_or_trusted(s: Option<&TaggedStr>) -> u8 {
    match s {
        Some(x) => x.trust,
        None => crate::trust::TRUSTED,
    }
}

/// A fresh string of the given text, which ends at its first zero character, and trust.
pub open spec fn emits(r: TaggedStr, text: Seq<char>, trust: u8) -> bool {
    r.wf() && r.rc == 1 && r.trust == trust && r.text@ == until_zero(text)
}

/// The text of a string that may be absent.
pub fn borrow(s: Option<&TaggedStr>) -> (r: &str)
    ensures
        r@ == text_or_empty(s),
{
    match s {
        Some(x) => x.text.as_str(),
        None => {
            proof {
                reveal_strlit("");
                assert(""@ =~= Seq::<char>::empty());
            }
            ""
        },
    }
}

/// What octets read as when each malformed part stands as a replacement character.
pub uninterp spec fn lossy_text(bytes: Seq<u8>) -> Seq<char>;

/// `String::from_utf8_lossy` answers the text of valid UTF-8 as it is; in anything else
/// each malformed part becomes a replacement character. A zero character in the text
/// comes from a zero octet only. How many replacement characters stand for a malformed
/// part is not stated.
#[verifier::external_body]
pub(crate) fn lossy(bytes: &[u8]) -> (s: String)
    ensures
        s@ == lossy_text(bytes@),
        vstd::utf8::valid_utf8(bytes@) ==> s@ == vstd::utf8::decode_utf8(bytes@),
        !bytes@.contains(0u8) ==> no_zero(s@),
{
    String::from_utf8_lossy(bytes).into_owned()
}

/// Two readings of the same octets agree.
pub proof fn readings_agree(bytes: Seq<u8>, a: Seq<char>, b: Seq<char>)
    requires
        reads_as(bytes, a),
        reads_as(bytes, b),
    ensures
        a == b,
{
    let n = choose|n: int| #[trigger]
        valid_up_to(bytes, n) && a == vstd::utf8::decode_utf8(bytes.take(n));
    let m = choose|m: int| #[trigger]
        valid_up_to(bytes, m) && b == vstd::utf8::decode_utf8(bytes.take(m));
    assert(vstd::utf8::valid_utf8(bytes.take(n)));
    assert(vstd::utf8::valid_utf8(bytes.take(m)));
    assert(n == m);
}

/// A text without a zero character reads back from its terminated octets as it is.
pub proof fn text_reads_back(t: Seq<char>, s: Seq<char>)
    requires
        forall|i: int| 0 <= i < vstd::utf8::encode_utf8(t).len() ==> #[trigger]
            vstd::utf8::encode_utf8(t)[i] != 0,
        reads_as(until_nul(vstd::utf8::encode_utf8(t).push(0)), s),
    ensures
        s == t,
{
    let e = vstd::utf8::encode_utf8(t);
    let b = e.push(0);
    assert(forall|i: int| 0 <= i < e.len() ==> b[i] == e[i]);
    until_nul_is(b, e.len() as int);
    assert(b.take(e.len() as int) =~= e);
    vstd::utf8::encode_utf8_valid_utf8(t);
    vstd::utf8::encode_utf8_decode_utf8(t);
    assert(e.take(e.len() as int) =~= e);
    assert(valid_up_to(e, e.len() as int));
    readings_agree(e, s, t);
}

/// Reading up to a zero takes the octets in front of it, all of them and no others.
pub proof fn octets_end_at_the_first_zero(a: Seq<u8>, b: Seq<u8>)
    requires
        !a.contains(0u8),
    ensures
        until_nul(a.push(0) + b) == a,
        until_nul(a) == a,
    decreases a.len(),
{
    let s = a.push(0) + b;
    if a.len() == 0 {
        assert(s[0] == 0);
        assert(until_nul(s) =~= a);
        assert(until_nul(a) =~= a);
    } else {
        assert(a[0] != 0) by {
            assert(a.contains(a[0]));
        }
        let r = a.skip(1);
        assert(!r.contains(0u8)) by {
            if r.contains(0u8) {
                let k = choose|k: int| 0 <= k < r.len() && r[k] == 0u8;
                assert(a[k + 1] == 0u8);
            }
        }
        octets_end_at_the_first_zero(r, b);
        assert(s.skip(1) =~= r.push(0) + b);
        assert(seq![a[0]] + r =~= a);
    }
}

/// A string that is there stands for its own text with its own trust; one that is not there
/// stands for the empty text, which can be trusted.
pub proof fn absent_strings_are_empty(s: &TaggedStr)
    ensures
        text_or_empty(Some(s)) == s.text@,
        trust_or_trusted(Some(s)) == s.trust,
        text_or_empty(None).len() == 0,
        trust_or_trusted(None) == crate::trust::TRUSTED,
{
}

/// What is emitted is held once, has the trust given, and is the text up to its first zero:
/// all of it where it has none.
pub proof fn emitted_texts_are_whole(r: TaggedStr, text: Seq<char>, trust: u8)
    requires
        emits(r, text, trust),
    ensures
        !text.contains('\0') ==> r.text@ == text,
        !r.text@.contains('\0'),
        r.trust == trust,
        r.rc == 1,
{
    crate::string::zeros_end_a_text(text);
}

} // verus!
