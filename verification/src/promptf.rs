//! Prompt values: a header and the string word that holds the text.

use vstd::prelude::*;

use crate::gc::Heap;
use crate::heap::{ObjHeader, ObjKind};
use crate::obj::Obj;
#[allow(unused_imports)]
use crate::gc::{points_at, retained, target, MAX_CELLS};
#[allow(unused_imports)]
use crate::heap::spec_kind_byte;
#[allow(unused_imports)]
use crate::obj::Cell;

verus! {

/// A prompt: a header plus the tagged string word of its text.
pub struct PromptObj {
    /// The object header.
    pub header: ObjHeader,
    /// The tagged string word. The prompt owns a reference to it.
    pub text: i64,
}

impl PromptObj {
    /// A prompt of the given text word.
    pub fn new(text: i64) -> (p: Self)
        ensures
            p.text == text,
            p.header.fresh(ObjKind::Prompt),
            p.header.len == 0,
    {
        PromptObj { header: ObjHeader::new(ObjKind::Prompt, 0), text }
    }
}

/// The word of a prompt of the given text word. The prompt takes a reference to the
/// text.
pub fn jrt_prompt_new(h: &mut Heap, text: i64) -> (w: i64)
    requires
        old(h).wf(),
        old(h).cells@.len() < MAX_CELLS,
        target(old(h).cells@, text) matches Some(i) ==> old(h).cells@[i]->Obj_0.hdr().rc
            < u32::MAX,
    ensures
        final(h).wf(),
        final(h).rc_on == old(h).rc_on,
        points_at(w) == old(h).cells@.len(),
        final(h).cells@.len() == old(h).cells@.len() + 1,
        final(h).cells@.last() matches Cell::Obj(Obj::Prompt(p)) && p.text == text
            && p.header.fresh(ObjKind::Prompt),
        final(h).cells@.drop_last() == match target(old(h).cells@, text) {
            Some(i) => old(h).cells@.update(i, Cell::Obj(retained(old(h).cells@[i]->Obj_0))),
            None => old(h).cells@,
        },
{
    h.jrt_incref(text);
    let ghost held = h.cells@;
    let w: i64 = h.leak_obj(Obj::Prompt(PromptObj::new(text)));
    assert(h.cells@.drop_last() =~= held);
    w
}

/// What unwrapping a word gives: a prompt's text word, and any other word itself.
pub open spec fn unwrapped(cells: Seq<Cell>, w: i64) -> i64 {
    let i = points_at(w);
    if 0 <= i < cells.len() {
        match cells[i] {
            Cell::Obj(Obj::Prompt(p)) => p.text,
            _ => w,
        }
    } else {
        w
    }
}

/// The text word inside a prompt; a word that is no prompt is its own answer.
pub fn jrt_prompt_text(h: &Heap, w: i64) -> (r: i64)
    ensures
        r == unwrapped(h.cells@, w),
{
    match h.object(w) {
        Some(Obj::Prompt(p)) => p.text,
        _ => w,
    }
}

/// A prompt stands for its text, and anything else for itself.
pub proof fn prompts_stand_for_their_text(cells: Seq<Cell>, w: i64)
    ensures
        0 <= points_at(w) < cells.len() ==> (cells[points_at(w)] matches Cell::Obj(Obj::Prompt(p))
            ==> unwrapped(cells, w) == p.text),
        !(0 <= points_at(w) < cells.len() && cells[points_at(w)] is Obj && cells[points_at(w)]->Obj_0
            is Prompt) ==> unwrapped(cells, w) == w,
{
}

} // verus!
