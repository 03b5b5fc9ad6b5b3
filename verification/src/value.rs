//! The tagged value word.
//!
//! A Jade value is one 64-bit word. An odd word is an integer of 63 bits; an even
//! word carries a tag in its low three bits: an object pointer, a string pointer, a
//! boxed float, or an immediate (nil, a bool, or a character with its trust).

use vstd::prelude::*;

verus! {

/// Tag of a pointer to a header-carrying object.
pub const TAG_PTR: u64 = 0;

/// Tag of a string pointer.
pub const TAG_STR: u64 = 2;

/// Tag of a boxed float.
pub const TAG_FLOAT: u64 = 4;

/// Tag of an immediate.
pub const TAG_IMM: u64 = 6;

/// The word of nil.
pub const NIL_BITS: u64 = 6;

/// The word of `false`.
pub const FALSE_BITS: u64 = 14;

/// The word of `true`.
pub const TRUE_BITS: u64 = 22;

/// The low six bits of a character word.
pub const CHAR_TAG: u64 = 30;

/// `char::from_u32` answers the character of a Unicode scalar value, and nothing
/// for a surrogate or a number past the last scalar.
pub assume_specification[ char::from_u32 ](i: u32) -> (r: Option<char>)
    ensures
        match r {
            Some(c) => c as u32 == i && vstd::utf8::is_scalar(i),
            None => !vstd::utf8::is_scalar(i),
        },
;

/// What a word stands for.
pub enum Val {
    /// An integer.
    Int(int),
    /// An object at an address.
    Ptr(u64),
    /// A string at an address.
    Str(u64),
    /// A boxed float at an address.
    Float(u64),
    /// Nil.
    Nil,
    /// A bool.
    Bool(bool),
    /// A character and its trust.
    Char(char, u8),
    /// No value.
    Junk,
}

/// The integer a 63-bit word keeps of `i`: `i` itself when it fits, else the
/// number congruent to it modulo two to the 63rd.
pub open spec fn wrap63(i: int) -> int {
    let h = i % 0x8000_0000_0000_0000;
    if h < 0x4000_0000_0000_0000 {
        h
    } else {
        h - 0x8000_0000_0000_0000
    }
}

/// What the word `bits` stands for.
pub open spec fn decode(bits: u64) -> Val {
    if bits % 2 == 1 {
        Val::Int(wrap63(bits as int / 2))
    } else if bits % 8 == TAG_PTR {
        Val::Ptr(bits)
    } else if bits % 8 == TAG_STR {
        Val::Str((bits - TAG_STR) as u64)
    } else if bits % 8 == TAG_FLOAT {
        Val::Float((bits - TAG_FLOAT) as u64)
    } else if bits == NIL_BITS {
        Val::Nil
    } else if bits == FALSE_BITS {
        Val::Bool(false)
    } else if bits == TRUE_BITS {
        Val::Bool(true)
    } else if bits % 64 == CHAR_TAG && bits / 65536 <= u32::MAX && vstd::utf8::is_scalar(
        (bits / 65536) as u32,
    ) {
        Val::Char((bits / 65536) as u32 as char, ((bits / 64) % 256) as u8)
    } else {
        Val::Junk
    }
}

/// A tagged value word.
#[derive(Clone, Copy, PartialEq, Eq, Debug, Structural)]
pub struct JadeValue {
    /// The word itself.
    pub bits: u64,
}

/// The smallest integer a word holds.
pub const INT_MIN: i64 = -0x4000_0000_0000_0000;

/// The largest integer a word holds.
pub const INT_MAX: i64 = 0x3fff_ffff_ffff_ffff;

impl View for JadeValue {
    type V = Val;

    open spec fn view(&self) -> Val {
        decode(self.bits)
    }
}

impl JadeValue {
    /// The value of a word.
    pub fn from_bits(bits: u64) -> (v: Self)
        ensures
            v.bits == bits,
    {
        JadeValue { bits }
    }

    /// The word of this value.
    pub fn bits(self) -> (b: u64)
        ensures
            b == self.bits,
    {
        self.bits
    }

    /// The value of a signed word.
    pub fn from_word(w: i64) -> (v: Self)
        ensures
            v.bits == w as u64,
    {
        JadeValue { bits: w as u64 }
    }

    /// The signed word of this value.
    pub fn word(self) -> (w: i64)
        ensures
            w == self.bits as i64,
    {
        self.bits as i64
    }

    /// Tag an integer. A word holds 63 bits, so an integer past that range loses
    /// its high bit.
    pub fn from_int(i: i64) -> (v: Self)
        ensures
            v@ == Val::Int(wrap63(i as int)),
    {
        let m: u64 = if i >= 0 {
            i as u64
        } else {
            (i as i128 + 0x1_0000_0000_0000_0000i128) as u64
        };
        let h: u64 = m % 0x8000_0000_0000_0000;
        JadeValue { bits: 2 * h + 1 }
    }

    /// Tag an integer that fits a word; `None` for one that does not.
    pub fn try_from_int(i: i64) -> (v: Option<Self>)
        ensures
            match v {
                Some(w) => INT_MIN <= i <= INT_MAX && w@ == Val::Int(i as int),
                None => !(INT_MIN <= i <= INT_MAX),
            },
    {
        if INT_MIN <= i && i <= INT_MAX {
            Some(JadeValue::from_int(i))
        } else {
            None
        }
    }

    /// Nil.
    pub fn nil() -> (v: Self)
        ensures
            v@ == Val::Nil,
    {
        JadeValue { bits: NIL_BITS }
    }

    /// Tag a bool.
    pub fn from_bool(b: bool) -> (v: Self)
        ensures
            v@ == Val::Bool(b),
    {
        if b {
            JadeValue { bits: TRUE_BITS }
        } else {
            JadeValue { bits: FALSE_BITS }
        }
    }

    /// Tag a character with its trust.
    pub fn from_char(c: char, trust: u8) -> (v: Self)
        ensures
            v@ == Val::Char(c, trust),
    {
        proof {
            vstd::utf8::char_is_scalar(c);
            vstd::utf8::char_u32_cast(c, c as u32);
        }
        JadeValue { bits: (c as u32) as u64 * 65536 + trust as u64 * 64 + CHAR_TAG }
    }

    /// Tag the address of an object.
    pub fn from_ptr(addr: u64) -> (v: Self)
        requires
            addr % 8 == 0,
        ensures
            v@ == Val::Ptr(addr),
            v.bits == addr,
    {
        JadeValue { bits: addr }
    }

    /// Tag the address of a string.
    pub fn from_str_ptr(addr: u64) -> (v: Self)
        requires
            addr % 8 == 0,
        ensures
            v@ == Val::Str(addr),
    {
        JadeValue { bits: addr + TAG_STR }
    }

    /// Tag the address of a boxed float.
    pub fn from_float_ptr(addr: u64) -> (v: Self)
        requires
            addr % 8 == 0,
        ensures
            v@ == Val::Float(addr),
    {
        JadeValue { bits: addr + TAG_FLOAT }
    }

    /// Whether this is an integer.
    pub fn is_int(self) -> (r: bool)
        ensures
            r == (self@ is Int),
    {
        self.bits % 2 == 1
    }

    /// Whether this points at an object.
    pub fn is_ptr(self) -> (r: bool)
        ensures
            r == (self@ is Ptr),
    {
        self.bits % 8 == TAG_PTR
    }

    /// Whether this points at a string.
    pub fn is_str(self) -> (r: bool)
        ensures
            r == (self@ is Str),
    {
        self.bits % 8 == TAG_STR
    }

    /// Whether this is a boxed float.
    pub fn is_float(self) -> (r: bool)
        ensures
            r == (self@ is Float),
    {
        self.bits % 8 == TAG_FLOAT
    }

    /// Whether this is nil.
    pub fn is_nil(self) -> (r: bool)
        ensures
            r == (self@ is Nil),
    {
        self.bits == NIL_BITS
    }

    /// Whether this is a bool.
    pub fn is_bool(self) -> (r: bool)
        ensures
            r == (self@ is Bool),
    {
        self.bits == TRUE_BITS || self.bits == FALSE_BITS
    }

    /// Whether this is a character.
    pub fn is_char(self) -> (r: bool)
        ensures
            r == (self@ is Char),
    {
        match self.as_char() {
            Some(_) => true,
            None => false,
        }
    }

    /// The integer of an integer value.
    pub fn as_int(self) -> (i: i64)
        requires
            self@ is Int,
        ensures
            self@ == Val::Int(i as int),
            INT_MIN <= i <= INT_MAX,
    {
        let h: u64 = self.bits / 2;
        if h < 0x4000_0000_0000_0000 {
            h as i64
        } else {
            (h as i128 - 0x8000_0000_0000_0000i128) as i64
        }
    }

    /// The bool of a bool value.
    pub fn as_bool(self) -> (b: bool)
        requires
            self@ is Bool,
        ensures
            self@ == Val::Bool(b),
    {
        self.bits == TRUE_BITS
    }

    /// The character of a character value; `None` for anything else.
    pub fn as_char(self) -> (r: Option<char>)
        ensures
            match r {
                Some(c) => self@ is Char && self@->Char_0 == c,
                None => !(self@ is Char),
            },
    {
        if self.bits % 64 != CHAR_TAG || self.bits / 65536 > u32::MAX as u64 {
            return None;
        }
        let s: u32 = (self.bits / 65536) as u32;
        match char::from_u32(s) {
            Some(c) => {
                proof {
                    vstd::utf8::char_u32_cast(c, s);
                }
                Some(c)
            },
            None => None,
        }
    }

    /// The trust of a character value.
    pub fn char_trust(self) -> (t: u8)
        requires
            self@ is Char,
        ensures
            self@->Char_1 == t,
    {
        ((self.bits / 64) % 256) as u8
    }

    /// The address of an object, string or float value.
    pub fn as_ptr(self) -> (addr: u64)
        requires
            self@ is Ptr || self@ is Str || self@ is Float,
        ensures
            self@ is Ptr ==> self@ == Val::Ptr(addr),
            self@ is Str ==> self@ == Val::Str(addr),
            self@ is Float ==> self@ == Val::Float(addr),
            addr % 8 == 0,
    {
        self.bits - self.bits % 8
    }
}

/// Every integer that fits a word survives the trip through it.
pub proof fn ints_in_range_are_exact(i: int)
    requires
        INT_MIN <= i <= INT_MAX,
    ensures
        wrap63(i) == i,
{
}

/// Wrapping keeps a number up to a multiple of the span of the integers of a word, and
/// lands among them.
pub proof fn wrapping_stays_in_range(v: int)
    ensures
        INT_MIN <= wrap63(v) <= INT_MAX,
        (v - wrap63(v)) % 0x8000_0000_0000_0000 == 0,
{
}

/// A word with its lowest bit set is an integer, and the integer is half of the word
/// below it, taken with its sign.
pub proof fn odd_words_are_integers(i: int, bits: u64)
    requires
        INT_MIN <= i <= INT_MAX,
        bits == if i < 0 {
            2 * i + 1 + 0x1_0000_0000_0000_0000
        } else {
            2 * i + 1
        },
    ensures
        decode(bits) == Val::Int(i),
{
    assert(bits % 2 == 1);
    ints_in_range_are_exact(i);
    if i < 0 {
        assert(bits as int / 2 == i + 0x8000_0000_0000_0000);
    } else {
        assert(bits as int / 2 == i);
    }
}

/// An address, which is a multiple of eight, is tagged by a number below eight: nothing
/// for an object, two for a string, four for a float. No two of these words are alike.
pub proof fn tags_name_the_kind(addr: u64)
    requires
        addr % 8 == 0,
        addr <= u64::MAX - 7,
    ensures
        decode(addr) == Val::Ptr(addr),
        decode((addr + 2) as u64) == Val::Str(addr),
        decode((addr + 4) as u64) == Val::Float(addr),
{
}

/// The constants and the characters share the tag six: nil, false and true come first, and
/// a character lies above its mark of trust.
pub proof fn immediates_spell_themselves(c: char, trust: u8)
    ensures
        decode(6) == Val::Nil,
        decode(14) == Val::Bool(false),
        decode(22) == Val::Bool(true),
        decode(((c as u32) as u64 * 65536 + trust as u64 * 64 + 30) as u64) == Val::Char(c, trust),
{
    let bits: u64 = ((c as u32) as u64 * 65536 + trust as u64 * 64 + 30) as u64;
    assert(bits == (c as int) * 65536 + trust * 64 + 30);
    assert(bits % 64 == 30);
    assert(bits / 65536 == c as int);
    assert((bits / 64) % 256 == trust);
}

} // verus!
