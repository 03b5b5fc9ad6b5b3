//! Heap objects of every kind, and the cells the heap is made of.

use vstd::prelude::*;

use crate::bytesf::BytesObj;
use crate::coll::{ArrayObj, DictObj, StructObj};
use crate::grammarf::GrammarObj;
use crate::handle::HandleObj;
use crate::heap::{ObjHeader, ObjKind};
#[allow(unused_imports)]
use crate::heap::{spec_color_byte, Color};
use crate::promptf::PromptObj;
use crate::string::TaggedStr;
use crate::task::FutureObj;

verus! {

/// A method bound to a receiver. It owns a reference to the receiver.
pub struct BoundMethodObj {
    /// The object header.
    pub header: ObjHeader,
    /// The implementation.
    pub fn_ptr: usize,
    /// The receiver, passed as the first argument.
    pub self_word: i64,
}

/// Which sort of callable a function box holds.
#[derive(Clone, Copy, PartialEq, Eq, Debug, Structural)]
pub enum FnSort {
    /// A function of the program.
    Plain,
    /// A core builtin, carrying its name.
    Builtin,
    /// A native package binding, carrying its name.
    NativeLib,
    /// A primitive type constructor, carrying its name.
    Type,
    /// A native function without a name.
    Native,
}

/// A callable box.
pub struct FnObj {
    /// The object header.
    pub header: ObjHeader,
    /// Which sort of callable it is.
    pub sort: FnSort,
    /// The name it carries.
    pub name: Option<String>,
}

/// A heap object.
pub enum Obj {
    /// An array.
    Array(ArrayObj),
    /// A dict.
    Dict(DictObj),
    /// A struct instance.
    Struct(StructObj),
    /// A callable box.
    Fn(FnObj),
    /// A future.
    Future(FutureObj),
    /// A prompt.
    Prompt(PromptObj),
    /// A grammar.
    Grammar(GrammarObj),
    /// A bound method.
    Bound(BoundMethodObj),
    /// A blob.
    Bytes(BytesObj),
    /// A native handle.
    Handle(HandleObj),
}

/// One cell of the heap.
pub enum Cell {
    /// Nothing: never used, or reclaimed.
    Free,
    /// A boxed float, by its bit pattern.
    Float(u64),
    /// A string.
    Str(TaggedStr),
    /// An object.
    Obj(Obj),
}

impl Obj {
    /// The object's header.
    pub open spec fn hdr(self) -> ObjHeader {
        match self {
            Obj::Array(o) => o.header,
            Obj::Dict(o) => o.header,
            Obj::Struct(o) => o.header,
            Obj::Fn(o) => o.header,
            Obj::Future(o) => o.header,
            Obj::Prompt(o) => o.header,
            Obj::Grammar(o) => o.header,
            Obj::Bound(o) => o.header,
            Obj::Bytes(o) => o.header,
            Obj::Handle(o) => o.header,
        }
    }

    /// The object with its header replaced.
    pub open spec fn with_hdr(self, header: ObjHeader) -> Obj {
        match self {
            Obj::Array(o) => Obj::Array(ArrayObj { header, ..o }),
            Obj::Dict(o) => Obj::Dict(DictObj { header, ..o }),
            Obj::Struct(o) => Obj::Struct(StructObj { header, ..o }),
            Obj::Fn(o) => Obj::Fn(FnObj { header, ..o }),
            Obj::Future(o) => Obj::Future(FutureObj { header, ..o }),
            Obj::Prompt(o) => Obj::Prompt(PromptObj { header, ..o }),
            Obj::Grammar(o) => Obj::Grammar(GrammarObj { header, ..o }),
            Obj::Bound(o) => Obj::Bound(BoundMethodObj { header, ..o }),
            Obj::Bytes(o) => Obj::Bytes(BytesObj { header, ..o }),
            Obj::Handle(o) => Obj::Handle(HandleObj { header, ..o }),
        }
    }

    /// The kind of the object.
    pub open spec fn spec_kind(self) -> ObjKind {
        match self {
            Obj::Array(_) => ObjKind::Array,
            Obj::Dict(_) => ObjKind::Dict,
            Obj::Struct(_) => ObjKind::Struct,
            Obj::Fn(_) => ObjKind::Fn,
            Obj::Future(_) => ObjKind::Future,
            Obj::Prompt(_) => ObjKind::Prompt,
            Obj::Grammar(_) => ObjKind::Grammar,
            Obj::Bound(_) => ObjKind::BoundMethod,
            Obj::Bytes(_) => ObjKind::Bytes,
            Obj::Handle(_) => ObjKind::Handle,
        }
    }

    /// The object is reclaimed by counting. Callables and grammars are not, nor is
    /// anything that lives in an arena.
    pub open spec fn spec_counted(self) -> bool {
        !(self is Fn) && !(self is Grammar) && !self.hdr().spec_is_arena()
    }

    /// The words the object owns a reference to.
    pub open spec fn kids(self) -> Seq<i64> {
        match self {
            Obj::Array(o) => o@,
            Obj::Dict(o) => o@.map_values(|e: (Seq<char>, i64)| e.1),
            Obj::Struct(o) => o@.map_values(|e: (Seq<char>, i64)| e.1),
            Obj::Future(o) => o.owned_words(),
            Obj::Prompt(o) => seq![o.text],
            Obj::Bound(o) => seq![o.self_word],
            _ => seq![],
        }
    }

    /// The invariant of the payload.
    pub open spec fn wf(self) -> bool {
        match self {
            Obj::Array(o) => o.synced(),
            Obj::Dict(o) => o.wf(),
            Obj::Struct(o) => o.wf(),
            Obj::Bytes(o) => o.wf(),
            Obj::Fn(_) => true,
            _ => self.hdr().len == 0,
        }
    }

    /// The kind of the object.
    pub fn kind(&self) -> (k: ObjKind)
        ensures
            k == self.spec_kind(),
    {
        match self {
            Obj::Array(_) => ObjKind::Array,
            Obj::Dict(_) => ObjKind::Dict,
            Obj::Struct(_) => ObjKind::Struct,
            Obj::Fn(_) => ObjKind::Fn,
            Obj::Future(_) => ObjKind::Future,
            Obj::Prompt(_) => ObjKind::Prompt,
            Obj::Grammar(_) => ObjKind::Grammar,
            Obj::Bound(_) => ObjKind::BoundMethod,
            Obj::Bytes(_) => ObjKind::Bytes,
            Obj::Handle(_) => ObjKind::Handle,
        }
    }

    /// The object's header.
    pub fn header(&self) -> (h: &ObjHeader)
        ensures
            *h == self.hdr(),
    {
        match self {
            Obj::Array(o) => &o.header,
            Obj::Dict(o) => &o.header,
            Obj::Struct(o) => &o.header,
            Obj::Fn(o) => &o.header,
            Obj::Future(o) => &o.header,
            Obj::Prompt(o) => &o.header,
            Obj::Grammar(o) => &o.header,
            Obj::Bound(o) => &o.header,
            Obj::Bytes(o) => &o.header,
            Obj::Handle(o) => &o.header,
        }
    }

    /// Whether the object is reclaimed by counting.
    pub fn is_collection(&self) -> (r: bool)
        ensures
            r == self.spec_counted(),
    {
        let plain: bool = match self {
            Obj::Fn(_) => false,
            Obj::Grammar(_) => false,
            _ => true,
        };
        plain && !self.header().is_arena()
    }

    /// Take a reference.
    pub fn incref(&mut self)
        requires
            old(self).wf(),
        ensures
            *final(self) == old(self).with_hdr(
                old(self).hdr().with_rc(old(self).hdr().rc.wrapping_add(1)).with_color(
                    spec_color_byte(Color::Black),
                ),
            ),
            final(self).wf(),
            final(self).kids() == old(self).kids(),
    {
        match self {
            Obj::Array(o) => o.header.incref(),
            Obj::Dict(o) => o.header.incref(),
            Obj::Struct(o) => o.header.incref(),
            Obj::Fn(o) => o.header.incref(),
            Obj::Future(o) => o.header.incref(),
            Obj::Prompt(o) => o.header.incref(),
            Obj::Grammar(o) => o.header.incref(),
            Obj::Bound(o) => o.header.incref(),
            Obj::Bytes(o) => o.header.incref(),
            Obj::Handle(o) => o.header.incref(),
        }
        proof {
            self.hdr_only(old(self));
        }
    }

    /// Drop a reference, reporting whether it was the last.
    #[must_use]
    pub fn decref(&mut self) -> (dead: bool)
        requires
            old(self).wf(),
            old(self).hdr().rc > 0,
        ensures
            *final(self) == old(self).with_hdr(
                old(self).hdr().with_rc((old(self).hdr().rc - 1) as u32),
            ),
            dead == (old(self).hdr().rc == 1),
            final(self).wf(),
            final(self).kids() == old(self).kids(),
    {
        let dead: bool = match self {
            Obj::Array(o) => o.header.decref(),
            Obj::Dict(o) => o.header.decref(),
            Obj::Struct(o) => o.header.decref(),
            Obj::Fn(o) => o.header.decref(),
            Obj::Future(o) => o.header.decref(),
            Obj::Prompt(o) => o.header.decref(),
            Obj::Grammar(o) => o.header.decref(),
            Obj::Bound(o) => o.header.decref(),
            Obj::Bytes(o) => o.header.decref(),
            Obj::Handle(o) => o.header.decref(),
        };
        proof {
            self.hdr_only(old(self));
        }
        dead
    }

    /// Changing the count or the color changes neither the payload's invariant nor
    /// what the object owns.
    pub proof fn hdr_only(&self, before: &Obj)
        requires
            before.wf(),
            *self == before.with_hdr(self.hdr()),
            self.hdr().len == before.hdr().len,
            self.hdr().kind == before.hdr().kind,
        ensures
            self.wf(),
            self.kids() == before.kids(),
    {
        match (self, before) {
            (Obj::Dict(d), Obj::Dict(e)) => {
                e.wf_same_entries(d);
            },
            (Obj::Struct(d), Obj::Struct(e)) => {
                d.same_fields(e);
            },
            (Obj::Array(d), Obj::Array(e)) => {
                d.same_elements(e);
            },
            _ => {},
        }
    }

    /// The words the object owns a reference to.
    pub fn owned(&self) -> (v: Vec<i64>)
        ensures
            v@ == self.kids(),
    {
        match self {
            Obj::Array(o) => {
                let s = o.as_slice();
                let mut v: Vec<i64> = Vec::new();
                v.extend_from_slice(s);
                assert(v@ =~= s@);
                v
            },
            Obj::Dict(o) => o.values(),
            Obj::Struct(o) => o.values(),
            Obj::Future(o) => o.owned(),
            Obj::Prompt(o) => {
                let mut v: Vec<i64> = Vec::new();
                v.push(o.text);
                assert(v@ =~= seq![o.text]);
                v
            },
            Obj::Bound(o) => {
                let mut v: Vec<i64> = Vec::new();
                v.push(o.self_word);
                assert(v@ =~= seq![o.self_word]);
                v
            },
            _ => Vec::new(),
        }
    }
}

/// An object owns the words it holds, in their order: elements, values, fields, what a
/// prompt says and what a method is bound to. Functions, grammars, octets and handles own
/// none.
pub proof fn objects_own_what_they_hold(o: Obj)
    ensures
        o matches Obj::Array(a) ==> o.kids() == a@,
        o matches Obj::Dict(d) ==> o.kids().len() == d@.len() && forall|i: int|
            0 <= i < d@.len() ==> #[trigger] o.kids()[i] == d@[i].1,
        o matches Obj::Struct(s) ==> o.kids().len() == s@.len() && forall|i: int|
            0 <= i < s@.len() ==> #[trigger] o.kids()[i] == s@[i].1,
        o matches Obj::Prompt(p) ==> o.kids() == seq![p.text],
        o matches Obj::Bound(b) ==> o.kids() == seq![b.self_word],
        o is Fn || o is Grammar || o is Bytes || o is Handle ==> o.kids().len() == 0,
{
}

/// Every object has a kind of its own, and a header put in is the header read out.
pub proof fn headers_go_in_and_out(o: Obj, h: ObjHeader)
    ensures
        o.with_hdr(h).hdr() == h,
        o.with_hdr(o.hdr()) == o,
        o.with_hdr(h).spec_kind() == o.spec_kind(),
        o is Array <==> o.spec_kind() is Array,
        o is Dict <==> o.spec_kind() is Dict,
        o is Struct <==> o.spec_kind() is Struct,
        o is Fn <==> o.spec_kind() is Fn,
        o is Future <==> o.spec_kind() is Future,
        o is Prompt <==> o.spec_kind() is Prompt,
        o is Grammar <==> o.spec_kind() is Grammar,
        o is Bound <==> o.spec_kind() is BoundMethod,
        o is Bytes <==> o.spec_kind() is Bytes,
        o is Handle <==> o.spec_kind() is Handle,
        o is Fn || o is Grammar ==> !o.spec_counted(),
        !(o is Fn) && !(o is Grammar) ==> o.spec_counted() == (o.hdr().flags & 2u8 == 0),
{
}

} // verus!
