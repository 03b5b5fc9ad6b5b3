//! The environment: what a program sees of its variables and its arguments.
//!
//! A variable is outside input and not to be trusted. The program's own invocation is.

use vstd::prelude::*;

use crate::ffi_coll::text_array;
use crate::gc::Heap;
use crate::string::TaggedStr;
use crate::trust::{TAINTED, TRUSTED};
#[allow(unused_imports)]
use crate::cstr::emits;
#[allow(unused_imports)]
use crate::ffi_coll::new_text_array;
#[allow(unused_imports)]
use crate::gc::MAX_CELLS;
#[allow(unused_imports)]
use crate::text::texts;

verus! {

/// `env.cwd()`: the working directory, or an empty text when there is none to be had.
pub fn jrt_env_cwd(cwd: Option<String>) -> (s: TaggedStr)
    ensures
        emits(
            s,
            match cwd {
                Some(p) => p@,
                None => seq![],
            },
            TRUSTED,
        ),
{
    match cwd {
        Some(p) => TaggedStr::new(p, TRUSTED),
        None => TaggedStr::new(String::new(), TRUSTED),
    }
}

/// `env.get(name)`: the variable, or nothing when it is not set.
pub fn jrt_env_get(value: Option<String>) -> (r: Option<TaggedStr>)
    ensures
        match value {
            Some(v) => r matches Some(s) && emits(s, v@, TAINTED),
            None => r is None,
        },
{
    match value {
        Some(v) => Some(TaggedStr::new(v, TAINTED)),
        None => None,
    }
}

/// `env.args()`: a new array of the arguments the program was started with.
pub fn jrt_env_args(h: &mut Heap, args: &[String]) -> (w: i64)
    requires
        old(h).wf(),
        old(h).cells@.len() + args@.len() + 1 <= MAX_CELLS,
    ensures
        final(h).wf(),
        final(h).rc_on == old(h).rc_on,
        new_text_array(old(h).cells@, final(h).cells@, w, texts(args@), TRUSTED),
{
    text_array(h, args, TRUSTED)
}

} // verus!
