//! Opaque native handles.
//!
//! A handle is a foreign address the program keeps and passes back, with the name of
//! the native type it came from. The address is never followed.

use vstd::prelude::*;

use crate::cstr::to_string;
use crate::gc::Heap;
use crate::heap::{ObjHeader, ObjKind};
use crate::obj::Obj;
#[allow(unused_imports)]
use crate::cstr::{reads_as, until_nul};
#[allow(unused_imports)]
use crate::ffi_coll::object_at;
#[allow(unused_imports)]
use crate::gc::{points_at, MAX_CELLS};
#[allow(unused_imports)]
use crate::heap::spec_kind_byte;
use crate::text::str_eq;
#[allow(unused_imports)]
use crate::obj::Cell;

verus! {

/// A foreign address and the native type it came from.
pub struct HandleObj {
    /// The object header.
    pub header: ObjHeader,
    /// The address, as a number.
    pub ptr: usize,
    /// The native type name.
    pub native_type: String,
}

impl HandleObj {
    /// A handle to `ptr` of type `native_type`.
    pub fn new(ptr: usize, native_type: String) -> (h: Self)
        ensures
            h.ptr == ptr,
            h.native_type == native_type,
            h.header.fresh(ObjKind::Handle),
            h.header.len == 0,
    {
        HandleObj { header: ObjHeader::new(ObjKind::Handle, 0), ptr, native_type }
    }

    /// The native type name.
    pub fn native_type(&self) -> (r: &str)
        ensures
            r@ == self.native_type@,
    {
        self.native_type.as_str()
    }

    /// Whether this handle came from the type `name`; the whole name is compared.
    pub fn is_type(&self, name: &str) -> (r: bool)
        ensures
            r == (self.native_type@ == name@),
    {
        str_eq(self.native_type.as_str(), name)
    }

    /// Whether the address is null.
    pub fn is_null(&self) -> (r: bool)
        ensures
            r == (self.ptr == 0),
    {
        self.ptr == 0
    }
}

impl PartialEq for HandleObj {
    fn eq(&self, other: &Self) -> (r: bool) {
        self.ptr == other.ptr && str_eq(self.native_type.as_str(), other.native_type.as_str())
    }
}

impl vstd::std_specs::cmp::PartialEqSpecImpl for HandleObj {
    open spec fn obeys_eq_spec() -> bool {
        true
    }

    open spec fn eq_spec(&self, other: &HandleObj) -> bool {
        self.ptr == other.ptr && self.native_type@ == other.native_type@
    }
}

impl Eq for HandleObj {

}

/// The handle a word points at.
pub open spec fn handle_at(cells: Seq<Cell>, w: i64) -> Option<HandleObj> {
    match object_at(cells, w) {
        Some(Obj::Handle(x)) => Some(x),
        _ => None,
    }
}

/// A new handle. The type's name is read up to its first octet that is no text; an
/// absent name is empty.
pub fn jrt_handle_new(h: &mut Heap, ptr: usize, name: Option<&[u8]>) -> (w: i64)
    requires
        old(h).wf(),
        old(h).cells@.len() < MAX_CELLS,
    ensures
        final(h).wf(),
        final(h).rc_on == old(h).rc_on,
        points_at(w) == old(h).cells@.len(),
        final(h).cells@.len() == old(h).cells@.len() + 1,
        final(h).cells@.drop_last() == old(h).cells@,
        handle_at(final(h).cells@, w) matches Some(x) && x.ptr == ptr && x.header.fresh(ObjKind::Handle)
            && reads_as(
            match name {
                Some(b) => until_nul(b@),
                None => seq![],
            },
            x.native_type@,
        ),
{
    let w: i64 = h.leak_obj(Obj::Handle(HandleObj::new(ptr, to_string(name))));
    assert(h.cells@.drop_last() =~= old(h).cells@);
    w
}

/// The address of a handle.
pub fn jrt_handle_ptr(h: &Heap, w: i64) -> (r: usize)
    requires
        handle_at(h.cells@, w) is Some,
    ensures
        r == handle_at(h.cells@, w)->Some_0.ptr,
{
    match h.object(w) {
        Some(Obj::Handle(x)) => x.ptr,
        _ => 0,
    }
}

/// The native type name of a handle.
pub fn jrt_handle_type(h: &Heap, w: i64) -> (r: &str)
    requires
        handle_at(h.cells@, w) is Some,
    ensures
        r@ == handle_at(h.cells@, w)->Some_0.native_type@,
{
    match h.object(w) {
        Some(Obj::Handle(x)) => x.native_type(),
        _ => "",
    }
}

/// 1 for a handle of the given type, else 0; 0 for an absent name.
pub fn jrt_handle_is_type(h: &Heap, w: i64, name: Option<&str>) -> (r: i32)
    requires
        handle_at(h.cells@, w) is Some,
    ensures
        r == (match name {
            Some(n) => if handle_at(h.cells@, w)->Some_0.native_type@ == n@ {
                1int
            } else {
                0
            },
            None => 0,
        }),
{
    match (h.object(w), name) {
        (Some(Obj::Handle(x)), Some(n)) => if x.is_type(n) {
            1
        } else {
            0
        },
        _ => 0,
    }
}

/// How a handle of the given type prints.
pub open spec fn spec_render(native_type: Seq<char>) -> Seq<char> {
    "handle<"@ + native_type + ">"@
}

/// How a handle prints: its type, never its address.
pub fn render(h: &HandleObj) -> (s: String)
    ensures
        s@ == spec_render(h.native_type@),
{
    let mut s = "handle<".to_owned();
    s.append(h.native_type.as_str());
    s.append(">");
    s
}

/// Two handles of one type print alike, whatever they address.
pub proof fn rendering_hides_the_address(a: HandleObj, b: HandleObj)
    requires
        a.native_type@ == b.native_type@,
    ensures
        spec_render(a.native_type@) == spec_render(b.native_type@),
{
}

/// A handle is found by the word that points at it and prints as its type between brackets.
pub proof fn handles_print_their_type(cells: Seq<Cell>, w: i64, x: HandleObj)
    ensures
        0 <= points_at(w) < cells.len() && cells[points_at(w)] == Cell::Obj(Obj::Handle(x))
            ==> handle_at(cells, w) == Some(x),
        spec_render(x.native_type@) == "handle<"@ + x.native_type@ + ">"@,
{
}

} // verus!
