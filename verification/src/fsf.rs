//! Files: how an operation that failed is told, and what trust a read carries.
//!
//! The caller touches the disk. What came of it is turned into words or into the full
//! text of an error here.

use vstd::prelude::*;

use crate::bytesf::BytesObj;
use crate::cstr::borrow;
use crate::gc::Heap;
use crate::obj::Obj;
use crate::string::TaggedStr;
use crate::trust::{TAINTED, TRUSTED};
#[allow(unused_imports)]
use crate::bytesf::new_blob;
#[allow(unused_imports)]
use crate::cstr::{emits, text_or_empty};
#[allow(unused_imports)]
use crate::gc::MAX_CELLS;

verus! {

/// What is said of a file operation that failed.
pub open spec fn io_text(op: Seq<char>, path: Seq<char>, err: Seq<char>) -> Seq<char> {
    op + " '"@ + path + "': "@ + err
}

/// The text of an error on a path.
pub fn io_error(op: &str, path: &str, err: &str) -> (s: String)
    ensures
        s@ == io_text(op@, path@, err@),
{
    let mut s = op.to_owned();
    s.append(" '");
    s.append(path);
    s.append("': ");
    s.append(err);
    s
}

/// The trust of what is read: outside data, unless the program vouches for it.
pub open spec fn spec_read_trust(vouched: bool) -> u8 {
    if vouched {
        TRUSTED
    } else {
        TAINTED
    }
}

/// The trust of what is read: outside data, unless the program vouches for it.
pub fn read_trust(vouched: bool) -> (t: u8)
    ensures
        t == spec_read_trust(vouched),
{
    if vouched {
        TRUSTED
    } else {
        TAINTED
    }
}

/// What `fs.read` hands on: the text that was read, or the error.
pub fn jrt_fs_read_impl(
    path: Option<&TaggedStr>,
    vouched: bool,
    read: Result<String, String>,
) -> (r: Result<TaggedStr, String>)
    ensures
        match read {
            Ok(s) => r matches Ok(t) && emits(t, s@, spec_read_trust(vouched)),
            Err(e) => r matches Err(m) && m@ == io_text("read"@, text_or_empty(path), e@),
        },
{
    match read {
        Ok(s) => Ok(TaggedStr::new(s, read_trust(vouched))),
        Err(e) => Err(io_error("read", borrow(path), e.as_str())),
    }
}

/// Octets that were read, in a new blob, or the error.
fn blob_or_error(
    h: &mut Heap,
    op: &str,
    path: &str,
    trust: u8,
    read: Result<Vec<u8>, String>,
) -> (r: Result<i64, String>)
    requires
        old(h).wf(),
        old(h).cells@.len() < MAX_CELLS,
    ensures
        final(h).wf(),
        final(h).rc_on == old(h).rc_on,
        match read {
            Ok(d) => r matches Ok(w) && new_blob(old(h).cells@, final(h).cells@, w, d@, trust),
            Err(e) => (r matches Err(m) && m@ == io_text(op@, path@, e@)) && final(h).cells@
                == old(h).cells@,
        },
{
    match read {
        Ok(d) => {
            let w: i64 = h.leak_obj(Obj::Bytes(BytesObj::new(d, trust)));
            assert(h.cells@.drop_last() =~= old(h).cells@);
            Ok(w)
        },
        Err(e) => Err(io_error(op, path, e.as_str())),
    }
}

/// What `fs.read_bytes` hands on: a blob of what was read, or the error.
pub fn jrt_fs_read_bytes_impl(
    h: &mut Heap,
    path: Option<&TaggedStr>,
    vouched: bool,
    read: Result<Vec<u8>, String>,
) -> (r: Result<i64, String>)
    requires
        old(h).wf(),
        old(h).cells@.len() < MAX_CELLS,
    ensures
        final(h).wf(),
        final(h).rc_on == old(h).rc_on,
        match read {
            Ok(d) => r matches Ok(w) && new_blob(
                old(h).cells@,
                final(h).cells@,
                w,
                d@,
                spec_read_trust(vouched),
            ),
            Err(e) => (r matches Err(m) && m@ == io_text("read_bytes"@, text_or_empty(path), e@))
                && final(h).cells@ == old(h).cells@,
        },
{
    blob_or_error(h, "read_bytes", borrow(path), read_trust(vouched), read)
}

/// What `fs.read_stdin_bytes` hands on: a blob of what was read, which is outside data,
/// or the error.
pub fn jrt_fs_read_stdin_bytes_impl(h: &mut Heap, read: Result<Vec<u8>, String>) -> (r: Result<
    i64,
    String,
>)
    requires
        old(h).wf(),
        old(h).cells@.len() < MAX_CELLS,
    ensures
        final(h).wf(),
        final(h).rc_on == old(h).rc_on,
        match read {
            Ok(d) => r matches Ok(w) && new_blob(old(h).cells@, final(h).cells@, w, d@, TAINTED),
            Err(e) => (r matches Err(m) && m@ == io_text("read_stdin_bytes"@, "<stdin>"@, e@))
                && final(h).cells@ == old(h).cells@,
        },
{
    blob_or_error(h, "read_stdin_bytes", "<stdin>", TAINTED, read)
}

/// What `fs.size` hands on: the size and the error. With an error the size is 0.
pub fn jrt_fs_size_impl(path: Option<&TaggedStr>, size: Result<i64, String>) -> (r: (
    i64,
    Option<String>,
))
    ensures
        match size {
            Ok(n) => r.0 == n && r.1 is None,
            Err(e) => r.0 == 0 && (r.1 matches Some(m) && m@ == io_text(
                "size"@,
                text_or_empty(path),
                e@,
            )),
        },
{
    match size {
        Ok(n) => (n, None),
        Err(e) => (0, Some(io_error("size", borrow(path), e.as_str()))),
    }
}

/// What an operation without a result hands on: nothing, or the error.
pub fn pending(op: &str, path: Option<&TaggedStr>, done: Result<(), String>) -> (r: Option<
    String,
>)
    ensures
        match done {
            Ok(_) => r is None,
            Err(e) => r matches Some(m) && m@ == io_text(op@, text_or_empty(path), e@),
        },
{
    match done {
        Ok(_) => None,
        Err(e) => Some(io_error(op, borrow(path), e.as_str())),
    }
}

/// What is read is trusted only where it is vouched for, and a failure names what was done
/// and to what.
pub proof fn reads_are_trusted_when_vouched(vouched: bool, op: Seq<char>, path: Seq<char>, err: Seq<char>)
    ensures
        spec_read_trust(vouched) == TRUSTED <==> vouched,
        spec_read_trust(true) == TRUSTED,
        spec_read_trust(false) == TAINTED,
        io_text(op, path, err) == op + " '"@ + path + "': "@ + err,
{
}

} // verus!
