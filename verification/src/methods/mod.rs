//! The method registry, and methods bound to a receiver.

pub mod resolve_status;

use vstd::prelude::*;

use crate::gc::Heap;
use crate::heap::{ObjHeader, ObjKind};
use crate::obj::{BoundMethodObj, Obj};
use crate::ops::string_at;
use crate::text::str_eq;
use crate::value::JadeValue;
#[allow(unused_imports)]
use crate::gc::{points_at, retained, target, MAX_CELLS};
#[allow(unused_imports)]
use crate::heap::spec_kind_byte;
#[allow(unused_imports)]
use crate::obj::Cell;
#[allow(unused_imports)]
use crate::ops::str_at;
#[allow(unused_imports)]
use crate::value::{decode, Val};

verus! {

/// A registered method.
pub struct MethodEntry {
    /// The struct type.
    pub owner: String,
    /// The method's name.
    pub method: String,
    /// The implementation.
    pub fnptr: usize,
}

/// The methods of a program.
pub struct MethodTable {
    /// The methods, in the order of registration.
    pub entries: Vec<MethodEntry>,
}

/// A registered method as mathematics.
pub type MethodV = (Seq<char>, Seq<char>, usize);

impl View for MethodTable {
    type V = Seq<MethodV>;

    open spec fn view(&self) -> Seq<MethodV> {
        Seq::new(
            self.entries@.len(),
            |i: int|
                (self.entries@[i].owner@, self.entries@[i].method@, self.entries@[i].fnptr),
        )
    }
}

/// The first implementation, from entry `i` on, of a method for a type.
pub open spec fn implementation(
    t: Seq<MethodV>,
    owner: Seq<char>,
    method: Seq<char>,
    i: int,
) -> Option<usize>
    decreases t.len() - i,
{
    if i < 0 || i >= t.len() {
        None
    } else if t[i].0 == owner && t[i].1 == method {
        Some(t[i].2)
    } else {
        implementation(t, owner, method, i + 1)
    }
}

/// The name of the struct type a word is an instance of.
pub open spec fn struct_type(cells: Seq<Cell>, w: i64) -> Option<Seq<char>> {
    let i = points_at(w);
    if 0 <= i < cells.len() {
        match cells[i] {
            Cell::Obj(Obj::Struct(s)) => Some(s.struct_name@),
            _ => None,
        }
    } else {
        None
    }
}

impl MethodTable {
    /// No methods.
    pub fn new() -> (t: Self)
        ensures
            t@ == Seq::<MethodV>::empty(),
    {
        let t = MethodTable { entries: Vec::new() };
        assert(t@ =~= Seq::<MethodV>::empty());
        t
    }

    /// The implementation of a method for a type.
    pub fn find(&self, owner: &str, method: &str) -> (r: Option<usize>)
        ensures
            r == implementation(self@, owner@, method@, 0),
    {
        let mut i: usize = 0;
        while i < self.entries.len()
            invariant
                i <= self.entries@.len(),
                implementation(self@, owner@, method@, i as int) == implementation(
                    self@,
                    owner@,
                    method@,
                    0,
                ),
            decreases self.entries@.len() - i,
        {
            let e = &self.entries[i];
            assert(self@[i as int] == (e.owner@, e.method@, e.fnptr));
            if str_eq(e.owner.as_str(), owner) && str_eq(e.method.as_str(), method) {
                return Some(e.fnptr);
            }
            i += 1;
        }
        None
    }
}

/// Register the implementation of a method for a type.
pub fn jrt_method_register(t: &mut MethodTable, owner: &str, method: &str, fnptr: usize)
    ensures
        final(t)@ == old(t)@.push((owner@, method@, fnptr)),
{
    let ghost before = t@;
    t.entries.push(MethodEntry { owner: owner.to_owned(), method: method.to_owned(), fnptr });
    assert(t@ =~= before.push((owner@, method@, fnptr)));
}

/// The implementation of a method for the type whose name is in a string word.
pub fn jrt_method_lookup(t: &MethodTable, h: &Heap, type_word: i64, method: &str) -> (r: Option<
    usize,
>)
    ensures
        r == implementation(
            t@,
            match decode(type_word as u64) {
                Val::Str(a) => str_at(h.cells@, a).0,
                _ => seq![],
            },
            method@,
            0,
        ),
{
    let v = JadeValue::from_word(type_word);
    if v.is_str() {
        match string_at(h, v.as_ptr()) {
            Some(s) => t.find(s.text.as_str(), method),
            None => {
                let none = String::new();
                t.find(none.as_str(), method)
            },
        }
    } else {
        let none = String::new();
        t.find(none.as_str(), method)
    }
}

/// The struct type of a word.
fn type_of<'a>(h: &'a Heap, w: i64) -> (r: Option<&'a str>)
    ensures
        match r {
            Some(s) => struct_type(h.cells@, w) == Some(s@),
            None => struct_type(h.cells@, w) is None,
        },
{
    match h.object(w) {
        Some(Obj::Struct(s)) => Some(s.struct_name.as_str()),
        _ => None,
    }
}

/// Whether the receiver is an instance of the struct type: 1 or 0.
pub fn jrt_struct_is_type(h: &Heap, recv: i64, owner: &str) -> (r: i32)
    ensures
        r == if struct_type(h.cells@, recv) == Some(owner@) {
            1i32
        } else {
            0
        },
{
    match type_of(h, recv) {
        Some(s) => {
            if str_eq(s, owner) {
                1
            } else {
                0
            }
        },
        None => 0,
    }
}

/// Whether the receiver is a struct instance: 1 or 0.
pub fn jrt_is_struct(h: &Heap, recv: i64) -> (r: i32)
    ensures
        r == if struct_type(h.cells@, recv) is Some {
            1i32
        } else {
            0
        },
{
    match type_of(h, recv) {
        Some(_) => 1,
        None => 0,
    }
}

/// What resolving a method against a receiver comes to: the status and, when found, the
/// implementation.
pub open spec fn resolved(
    t: Seq<MethodV>,
    cells: Seq<Cell>,
    recv: i64,
    method: Seq<char>,
) -> (i32, Option<usize>) {
    match struct_type(cells, recv) {
        None => (resolve_status::NOT_A_STRUCT, None),
        Some(owner) => match implementation(t, owner, method, 0) {
            Some(f) => (resolve_status::OK, Some(f)),
            None => (resolve_status::NO_SUCH_METHOD, None),
        },
    }
}

/// Resolve a method against the receiver's own type.
pub fn jrt_method_resolve(t: &MethodTable, h: &Heap, recv: i64, method: &str) -> (r: (
    i32,
    Option<usize>,
))
    ensures
        r == resolved(t@, h.cells@, recv, method@),
{
    match type_of(h, recv) {
        None => (resolve_status::NOT_A_STRUCT, None),
        Some(owner) => match t.find(owner, method) {
            Some(f) => (resolve_status::OK, Some(f)),
            None => (resolve_status::NO_SUCH_METHOD, None),
        },
    }
}

/// Bind a method to a receiver; nothing when it is no struct or has no such method. The
/// bound method holds a reference to the receiver, which lives as long as it does.
pub fn jrt_bind_method_new(t: &MethodTable, h: &mut Heap, recv: i64, method: &str) -> (r: Option<
    i64,
>)
    requires
        old(h).wf(),
        old(h).cells@.len() < MAX_CELLS,
        target(old(h).cells@, recv) matches Some(i) ==> old(h).cells@[i]->Obj_0.hdr().rc
            < u32::MAX,
    ensures
        final(h).wf(),
        final(h).rc_on == old(h).rc_on,
        match resolved(t@, old(h).cells@, recv, method@).1 {
            None => r is None && final(h).cells@ == old(h).cells@,
            Some(f) => {
                &&& r matches Some(w) && points_at(w) == old(h).cells@.len()
                &&& final(h).cells@.len() == old(h).cells@.len() + 1
                &&& final(h).cells@.last() matches Cell::Obj(Obj::Bound(b)) && b.fn_ptr == f
                    && b.self_word == recv && b.header.fresh(ObjKind::BoundMethod)
                &&& final(h).cells@.drop_last() == match target(old(h).cells@, recv) {
                    Some(i) => old(h).cells@.update(
                        i,
                        Cell::Obj(retained(old(h).cells@[i]->Obj_0)),
                    ),
                    None => old(h).cells@,
                }
            },
        },
{
    let f: usize = match jrt_method_resolve(t, h, recv, method).1 {
        Some(f) => f,
        None => {
            return None;
        },
    };
    h.jrt_incref(recv);
    let ghost held = h.cells@;
    let b = BoundMethodObj {
        header: ObjHeader::new(ObjKind::BoundMethod, 0),
        fn_ptr: f,
        self_word: recv,
    };
    let w: i64 = h.leak_obj(Obj::Bound(b));
    assert(h.cells@.drop_last() =~= held);
    Some(w)
}

// ── Laws ─────────────────────────────────────────────────────────────────────

/// A method of one type is never found for another: what is found was registered for
/// the receiver's type under that name.
pub proof fn methods_belong_to_their_type(
    t: Seq<MethodV>,
    owner: Seq<char>,
    method: Seq<char>,
    i: int,
)
    requires
        0 <= i,
    ensures
        implementation(t, owner, method, i) matches Some(f) ==> exists|k: int|
            i <= k < t.len() && (#[trigger] t[k]) == (owner, method, f),
        implementation(t, owner, method, i) is None ==> forall|k: int|
            i <= k < t.len() ==> !((#[trigger] t[k]).0 == owner && t[k].1 == method),
    decreases t.len() - i,
{
    if i < t.len() {
        methods_belong_to_their_type(t, owner, method, i + 1);
    }
}

/// Of several registrations for one type and name the first is found.
pub proof fn the_first_registration_is_found(
    t: Seq<MethodV>,
    owner: Seq<char>,
    method: Seq<char>,
    i: int,
    k: int,
)
    requires
        0 <= i <= k < t.len(),
        t[k].0 == owner,
        t[k].1 == method,
        forall|j: int| i <= j < k ==> !((#[trigger] t[j]).0 == owner && t[j].1 == method),
    ensures
        implementation(t, owner, method, i) == Some(t[k].2),
    decreases k - i,
{
    if i < k {
        assert(!(t[i].0 == owner && t[i].1 == method));
        the_first_registration_is_found(t, owner, method, i + 1, k);
    }
}

/// A call resolves on a struct alone, by the name of its type.
pub proof fn structs_resolve_by_their_type(
    t: Seq<MethodV>,
    cells: Seq<Cell>,
    recv: i64,
    method: Seq<char>,
)
    ensures
        ({
            let i = points_at(recv);
            let (status, f) = resolved(t, cells, recv, method);
            if 0 <= i < cells.len() && (cells[i] matches Cell::Obj(Obj::Struct(_))) {
                let owner = cells[i]->Obj_0->Struct_0.struct_name@;
                &&& f == implementation(t, owner, method, 0)
                &&& f is Some ==> status == resolve_status::OK
                &&& f is None ==> status == resolve_status::NO_SUCH_METHOD
            } else {
                f is None && status == resolve_status::NOT_A_STRUCT
            }
        }),
{
}

} // verus!
