//! Tagged strings: text, a trust tag and a reference count.
//!
//! A text ends at its first zero character: what lies behind one is not part of the
//! string. Octets that may hold zeros belong in a blob.
//!
//! A literal is [`IMMORTAL`]: its count never moves, so releasing a slot needs no
//! knowledge of whether the string in it was allocated or baked into the program.

use vstd::prelude::*;

use crate::text::{chars_of, find_char, string_of_range};
use crate::trust::combine;
#[allow(unused_imports)]
use crate::trust::spec_combine;

verus! {

/// The count of a string that is never reclaimed.
pub const IMMORTAL: u32 = 0xffff_ffff;

/// The text holds no zero character.
pub open spec fn no_zero(t: Seq<char>) -> bool {
    !t.contains('\0')
}

/// The characters before the first zero, or all of them.
pub open spec fn until_zero(t: Seq<char>) -> Seq<char>
    decreases t.len(),
{
    if t.len() == 0 || t[0] == '\0' {
        seq![]
    } else {
        seq![t[0]] + until_zero(t.skip(1))
    }
}

/// The characters before the first zero are the longest prefix without one.
proof fn until_zero_is(t: Seq<char>, n: int)
    requires
        0 <= n <= t.len(),
        forall|i: int| 0 <= i < n ==> t[i] != '\0',
        n == t.len() || t[n] == '\0',
    ensures
        until_zero(t) == t.take(n),
    decreases n,
{
    if n > 0 {
        let rest = t.skip(1);
        assert(forall|i: int| 0 <= i < n - 1 ==> rest[i] == t[i + 1]);
        until_zero_is(rest, n - 1);
        assert(seq![t[0]] + rest.take(n - 1) =~= t.take(n));
    } else {
        assert(t.take(0) =~= seq![]);
    }
}

/// A text without zeros stays whole, and no text keeps one.
pub proof fn zeros_end_a_text(t: Seq<char>)
    ensures
        no_zero(until_zero(t)),
        no_zero(t) ==> until_zero(t) == t,
        until_zero(until_zero(t)) == until_zero(t),
    decreases t.len(),
{
    if t.len() > 0 && t[0] != '\0' {
        let rest = t.skip(1);
        zeros_end_a_text(rest);
        let u = until_zero(t);
        assert(u.skip(1) =~= until_zero(rest));
        assert forall|i: int| 0 <= i < u.len() implies u[i] != '\0' by {
            if i > 0 {
                assert(u[i] == until_zero(rest)[i - 1]);
            }
        }
        if no_zero(t) {
            assert forall|i: int| 0 <= i < rest.len() implies rest[i] != '\0' by {
                assert(rest[i] == t[i + 1]);
            }
            assert(seq![t[0]] + rest =~= t);
        }
    } else if t.len() > 0 {
        assert(t.contains(t[0]));
    } else {
        assert(t =~= seq![]);
    }
}

/// Two texts without zeros joined hold none.
pub proof fn joined_without_zero(a: Seq<char>, b: Seq<char>)
    requires
        no_zero(a),
        no_zero(b),
    ensures
        no_zero(a + b),
        until_zero(a + b) == a + b,
{
    assert forall|i: int| 0 <= i < (a + b).len() implies (a + b)[i] != '\0' by {
        if i < a.len() {
            assert(a.contains(a[i]));
        } else {
            assert(b.contains(b[i - a.len()]));
        }
    }
    zeros_end_a_text(a + b);
}

/// The text up to its first zero character.
fn cut(text: String) -> (r: String)
    ensures
        r@ == until_zero(text@),
{
    let v = chars_of(text.as_str());
    match find_char(v.as_slice(), '\0') {
        Some(n) => {
            proof {
                until_zero_is(text@, n as int);
                assert(text@.take(n as int) =~= text@.subrange(0, n as int));
            }
            string_of_range(v.as_slice(), 0, n)
        },
        None => {
            proof {
                zeros_end_a_text(text@);
            }
            text
        },
    }
}

/// A string with its count and trust.
pub struct TaggedStr {
    /// Strong reference count, or [`IMMORTAL`].
    pub rc: u32,
    /// Where the text came from.
    pub trust: u8,
    /// The text.
    pub text: String,
}

impl TaggedStr {
    /// The text ends where it ends: it holds no zero character.
    pub open spec fn wf(&self) -> bool {
        no_zero(self.text@)
    }

    /// A fresh string, owned by whoever made it. The text ends at its first zero
    /// character.
    pub fn new(text: String, trust: u8) -> (s: Self)
        ensures
            s.wf(),
            s.rc == 1,
            s.trust == trust,
            s.text@ == until_zero(text@),
    {
        proof {
            zeros_end_a_text(text@);
        }
        TaggedStr { rc: 1, trust, text: cut(text) }
    }

    /// A literal. The text ends at its first zero character.
    pub fn literal(text: String) -> (s: Self)
        ensures
            s.wf(),
            s.rc == IMMORTAL,
            s.trust == crate::trust::TRUSTED,
            s.text@ == until_zero(text@),
    {
        proof {
            zeros_end_a_text(text@);
        }
        TaggedStr { rc: IMMORTAL, trust: crate::trust::TRUSTED, text: cut(text) }
    }

    /// A fresh copy of `text` up to its first zero character.
    pub fn dup(text: &str, trust: u8) -> (s: Self)
        ensures
            s.wf(),
            s.rc == 1,
            s.trust == trust,
            s.text@ == until_zero(text@),
    {
        TaggedStr::new(text.to_owned(), trust)
    }

    /// The concatenation of two strings, as strict as the stricter of them.
    pub fn concat(a: &TaggedStr, b: &TaggedStr) -> (s: Self)
        requires
            a.wf(),
            b.wf(),
        ensures
            s.wf(),
            s.rc == 1,
            s.trust == spec_combine(a.trust, b.trust),
            s.text@ == a.text@ + b.text@,
    {
        let mut text = a.text.clone();
        text.append(b.text.as_str());
        proof {
            joined_without_zero(a.text@, b.text@);
        }
        TaggedStr::new(text, combine(a.trust, b.trust))
    }

    /// Take a reference. A literal is left alone.
    pub fn incref(&mut self)
        ensures
            final(self).rc == (if old(self).rc == IMMORTAL {
                IMMORTAL
            } else {
                (old(self).rc + 1) as u32
            }),
            final(self).trust == old(self).trust,
            final(self).text == old(self).text,
    {
        if self.rc != IMMORTAL {
            self.rc = self.rc + 1;
        }
    }

    /// Drop a reference, reporting whether the string is to be freed now. A literal is
    /// left alone, and so is a count that is already zero.
    pub fn decref(&mut self) -> (dead: bool)
        ensures
            final(self).rc == (if old(self).rc == IMMORTAL || old(self).rc == 0 {
                old(self).rc
            } else {
                (old(self).rc - 1) as u32
            }),
            dead == (old(self).rc == 1),
            final(self).trust == old(self).trust,
            final(self).text == old(self).text,
    {
        if self.rc == IMMORTAL || self.rc == 0 {
            return false;
        }
        self.rc = self.rc - 1;
        self.rc == 0
    }
}

/// The trust of a string that may be absent: an absent one is trusted.
pub fn trust_of(s: Option<&TaggedStr>) -> (t: u8)
    ensures
        t == (match s {
            Some(x) => x.trust,
            None => crate::trust::TRUSTED,
        }),
{
    match s {
        Some(x) => x.trust,
        None => crate::trust::TRUSTED,
    }
}

/// The count after one reference is taken.
pub open spec fn rc_up(rc: u32) -> u32 {
    if rc == IMMORTAL {
        rc
    } else {
        (rc + 1) as u32
    }
}

/// The count after one reference is dropped.
pub open spec fn rc_down(rc: u32) -> u32 {
    if rc == IMMORTAL || rc == 0 {
        rc
    } else {
        (rc - 1) as u32
    }
}

/// Taking and dropping a reference balance, for a literal and for any count short of
/// the marker.
pub proof fn retain_and_release_balance(rc: u32)
    requires
        rc != IMMORTAL - 1,
    ensures
        rc_down(rc_up(rc)) == rc,
{
}

/// A text is cut at its first zero, and nowhere before it.
pub proof fn texts_end_at_the_first_zero(a: Seq<char>, b: Seq<char>)
    requires
        !a.contains('\0'),
    ensures
        until_zero(a.push('\0') + b) == a,
        until_zero(a) == a,
    decreases a.len(),
{
    zeros_end_a_text(a);
    let s = a.push('\0') + b;
    if a.len() == 0 {
        assert(s[0] == '\0');
        assert(until_zero(s) =~= a);
    } else {
        assert(a[0] != '\0') by {
            assert(a.contains(a[0]));
        }
        let r = a.skip(1);
        assert(!r.contains('\0')) by {
            if r.contains('\0') {
                let k = choose|k: int| 0 <= k < r.len() && r[k] == '\0';
                assert(a[k + 1] == '\0');
            }
        }
        texts_end_at_the_first_zero(r, b);
        assert(s.skip(1) =~= r.push('\0') + b);
        assert(seq![a[0]] + r =~= a);
    }
}

/// A reference more counts one more and a reference less one less, down to none; a literal
/// is never counted.
pub proof fn counts_step_by_one(rc: u32)
    ensures
        rc < u32::MAX - 1 && rc != IMMORTAL ==> rc_up(rc) == rc + 1,
        0 < rc && rc != IMMORTAL ==> rc_down(rc) == rc - 1,
        rc_down(0) == 0 || IMMORTAL == 0,
        rc_up(IMMORTAL) == IMMORTAL,
        rc_down(IMMORTAL) == IMMORTAL,
{
}

} // verus!
