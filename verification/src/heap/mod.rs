//! The header every reference-typed Jade value carries.
//!
//! A header holds the strong count, the element count, the kind of the object,
//! and the collector's color and flags. It is 16 bytes, 8-aligned.

pub mod flags;

use vstd::prelude::*;

verus! {

/// What kind of object follows a header.
#[derive(Clone, Copy, PartialEq, Eq, Debug, Structural)]
pub enum ObjKind {
    /// A boxed float.
    Float,
    /// A heap string.
    Str,
    /// A growable array.
    Array,
    /// A hash dict.
    Dict,
    /// A struct instance: a named type and its field slots.
    Struct,
    /// A function or closure value.
    Fn,
    /// A handle to an in-flight task.
    Future,
    /// A prompt value.
    Prompt,
    /// A grammar value.
    Grammar,
    /// A method bound to a receiver.
    BoundMethod,
    /// A binary blob.
    Bytes,
    /// An opaque native handle.
    Handle,
}

/// The byte a kind is stored as.
pub open spec fn spec_kind_byte(k: ObjKind) -> u8 {
    match k {
        ObjKind::Float => 0,
        ObjKind::Str => 1,
        ObjKind::Array => 2,
        ObjKind::Dict => 3,
        ObjKind::Struct => 4,
        ObjKind::Fn => 5,
        ObjKind::Future => 6,
        ObjKind::Prompt => 7,
        ObjKind::Grammar => 8,
        ObjKind::BoundMethod => 9,
        ObjKind::Bytes => 10,
        ObjKind::Handle => 11,
    }
}

impl ObjKind {
    /// The byte this kind is stored as.
    pub fn byte(self) -> (b: u8)
        ensures
            b == spec_kind_byte(self),
    {
        match self {
            ObjKind::Float => 0,
            ObjKind::Str => 1,
            ObjKind::Array => 2,
            ObjKind::Dict => 3,
            ObjKind::Struct => 4,
            ObjKind::Fn => 5,
            ObjKind::Future => 6,
            ObjKind::Prompt => 7,
            ObjKind::Grammar => 8,
            ObjKind::BoundMethod => 9,
            ObjKind::Bytes => 10,
            ObjKind::Handle => 11,
        }
    }
}

/// The collector's color of an object.
#[derive(Clone, Copy, PartialEq, Eq, Debug, Structural)]
pub enum Color {
    /// In active use; the color of a live object.
    Black,
    /// Provisionally visited during trial deletion.
    Gray,
    /// Proven garbage, awaiting reclamation.
    White,
    /// A candidate root: released without reaching zero.
    Purple,
}

/// The byte a color is stored as.
pub open spec fn spec_color_byte(c: Color) -> u8 {
    match c {
        Color::Black => 0,
        Color::Gray => 1,
        Color::White => 2,
        Color::Purple => 3,
    }
}

impl Color {
    /// The byte this color is stored as.
    pub fn byte(self) -> (b: u8)
        ensures
            b == spec_color_byte(self),
    {
        match self {
            Color::Black => 0,
            Color::Gray => 1,
            Color::White => 2,
            Color::Purple => 3,
        }
    }
}

/// The common header of every heap object.
#[derive(Debug)]
pub struct ObjHeader {
    /// Strong reference count.
    pub rc: u32,
    /// Element, field or byte count; its meaning depends on the kind.
    pub len: u32,
    /// The [`ObjKind`] byte.
    pub kind: u8,
    /// The [`Color`] byte.
    pub color: u8,
    /// Bits of [`flags`].
    pub flags: u8,
    /// Reserved.
    pub reserved: u8,
    /// Reserved.
    pub reserved_word: u32,
    /// Aligns the header to eight bytes.
    pub align: [u64; 0],
}

impl ObjHeader {
    /// The object may not be reclaimed by counting.
    pub open spec fn spec_is_arena(self) -> bool {
        self.flags & 2u8 != 0
    }

    /// The header of a new object of the kind: one reference, black, no flags.
    pub open spec fn fresh(self, kind: ObjKind) -> bool {
        &&& self.rc == 1
        &&& self.kind == spec_kind_byte(kind)
        &&& self.color == spec_color_byte(Color::Black)
        &&& self.flags == 0
        &&& self.reserved == 0
        &&& self.reserved_word == 0
        &&& !self.spec_is_arena()
    }

    /// This header with the count set to `rc`, everything else kept.
    pub open spec fn with_rc(self, rc: u32) -> ObjHeader {
        ObjHeader { rc, ..self }
    }

    /// This header with the length set to `len`, everything else kept.
    pub open spec fn with_len(self, len: u32) -> ObjHeader {
        ObjHeader { len, ..self }
    }

    /// This header with the color byte set to `color`, everything else kept.
    pub open spec fn with_color(self, color: u8) -> ObjHeader {
        ObjHeader { color, ..self }
    }

    /// A fresh header: one reference, black, no flags.
    pub fn new(kind: ObjKind, len: u32) -> (h: Self)
        ensures
            h.fresh(kind),
            h.len == len,
    {
        assert(0u8 & 2u8 == 0) by (bit_vector);
        ObjHeader {
            rc: 1,
            len,
            kind: kind.byte(),
            color: Color::Black.byte(),
            flags: 0,
            reserved: 0,
            reserved_word: 0,
            align: [],
        }
    }

    /// Take a reference; a new reference also recolors the object black. The count
    /// wraps at its 32-bit width.
    pub fn incref(&mut self)
        ensures
            *final(self) == old(self).with_rc(old(self).rc.wrapping_add(1)).with_color(
                spec_color_byte(Color::Black),
            ),
    {
        self.rc = self.rc.wrapping_add(1);
        self.color = Color::Black.byte();
    }

    /// Whether the object lives in an arena.
    pub fn is_arena(&self) -> (r: bool)
        ensures
            r == self.spec_is_arena(),
    {
        self.flags & flags::ARENA != 0
    }

    /// Mark the object as living in an arena.
    pub fn set_arena(&mut self)
        ensures
            *final(self) == (ObjHeader { flags: old(self).flags | flags::ARENA, ..*old(self) }),
            final(self).spec_is_arena(),
    {
        let f: u8 = self.flags;
        assert((f | 2u8) & 2u8 != 0) by (bit_vector);
        self.flags = self.flags | flags::ARENA;
    }

    /// Drop a reference, reporting whether it was the last. Releasing a dead object
    /// is a double free and has no answer.
    #[must_use]
    pub fn decref(&mut self) -> (dead: bool)
        requires
            old(self).rc > 0,
        ensures
            *final(self) == old(self).with_rc((old(self).rc - 1) as u32),
            dead == (old(self).rc == 1),
    {
        self.rc = self.rc - 1;
        self.rc == 0
    }

    /// The strong count.
    pub fn rc(&self) -> (r: u32)
        ensures
            r == self.rc,
    {
        self.rc
    }

    /// The color byte.
    pub fn color(&self) -> (r: u8)
        ensures
            r == self.color,
    {
        self.color
    }

    /// Whether the object stands in the candidate-root set.
    pub fn is_buffered(&self) -> (r: bool)
        ensures
            r == (self.flags & flags::BUFFERED != 0),
    {
        self.flags & flags::BUFFERED != 0
    }
}

/// Taking a reference and dropping one again leaves the count as it was.
pub proof fn incref_then_decref(h: ObjHeader)
    requires
        h.rc < u32::MAX,
    ensures
        h.with_rc(h.rc.wrapping_add(1)).rc > 0,
        ({
            let up = h.with_rc(h.rc.wrapping_add(1)).with_color(spec_color_byte(Color::Black));
            up.with_rc((up.rc - 1) as u32) == h.with_color(spec_color_byte(Color::Black))
        }),
{
}

/// Every kind has a number of its own, and so has every color.
pub proof fn numbers_tell_kinds_apart(a: ObjKind, b: ObjKind, c: Color, d: Color)
    ensures
        spec_kind_byte(a) == spec_kind_byte(b) <==> a == b,
        spec_color_byte(c) == spec_color_byte(d) <==> c == d,
        spec_kind_byte(a) < 12,
        spec_color_byte(c) < 4,
{
}

} // verus!
