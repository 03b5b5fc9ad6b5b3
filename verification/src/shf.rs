//! Shell commands: what their output and their end mean.
//!
//! The caller runs the command. What is told of the run is turned into an answer, or
//! into the full text of an error, here.

use vstd::prelude::*;

use crate::cstr::lossy;
use crate::strf::trim;
use crate::string::TaggedStr;
use crate::text::{chars_of, int_text, string_of_range};
use crate::trust::TAINTED;
#[allow(unused_imports)]
use crate::cstr::{emits, lossy_text};
#[allow(unused_imports)]
use crate::strf::trimmed;
#[allow(unused_imports)]
use crate::text::decimal;

verus! {

/// How a command ended and what it wrote.
pub struct ShellRun {
    /// The exit code; none when a signal ended it.
    pub code: Option<i32>,
    /// What it wrote to standard output.
    pub stdout: Vec<u8>,
    /// What it wrote to standard error.
    pub stderr: Vec<u8>,
}

/// The text without the line feeds at its end.
pub open spec fn without_line_ends(s: Seq<char>) -> Seq<char>
    decreases s.len(),
{
    if s.len() > 0 && s.last() == '\n' {
        without_line_ends(s.drop_last())
    } else {
        s
    }
}

/// The text without the line feeds at its end.
pub fn trim_line_ends(s: &str) -> (r: String)
    ensures
        r@ == without_line_ends(s@),
{
    let v = chars_of(s);
    let mut n: usize = v.len();
    assert(v@.take(n as int) =~= s@);
    while n > 0 && v[n - 1] == '\n'
        invariant
            n <= v@.len(),
            without_line_ends(v@.take(n as int)) == without_line_ends(s@),
        decreases n,
    {
        assert(v@.take(n as int).drop_last() =~= v@.take(n - 1));
        n -= 1;
    }
    let r = string_of_range(v.as_slice(), 0, n);
    assert(r@ =~= v@.take(n as int));
    r
}

/// The exit code of a run, where a signal counts as -1.
pub open spec fn exit_code(code: Option<i32>) -> int {
    match code {
        Some(c) => c as int,
        None => -1int,
    }
}

/// The exit code of a run, where a signal counts as -1.
pub fn code_of(code: Option<i32>) -> (r: i64)
    ensures
        r == exit_code(code),
{
    match code {
        Some(c) => c as i64,
        None => -1,
    }
}

/// The text of an error that kept the shell from starting.
pub fn spawn_error(op: &str, reason: &str) -> (s: String)
    ensures
        s@ == op@ + ": could not spawn shell: "@ + reason@,
{
    let mut s = op.to_owned();
    s.append(": could not spawn shell: ");
    s.append(reason);
    s
}

/// What `sh.exec` says of a command that failed.
pub open spec fn exec_error(code: Option<i32>, stderr: Seq<u8>) -> Seq<char> {
    "sh.exec: command exited with code "@ + decimal(exit_code(code)) + ": "@ + trimmed(
        lossy_text(stderr),
    )
}

/// `sh.exec(cmd)`: what the command wrote, without the line feeds at its end. A shell
/// that cannot start and a command that fails are errors.
pub fn exec(run: Result<ShellRun, String>) -> (r: Result<String, String>)
    ensures
        match run {
            Err(e) => r matches Err(m) && m@ == "sh.exec"@ + ": could not spawn shell: "@ + e@,
            Ok(x) => if x.code == Some(0i32) {
                r matches Ok(s) && s@ == without_line_ends(lossy_text(x.stdout@))
            } else {
                r matches Err(m) && m@ == exec_error(x.code, x.stderr@)
            },
        },
{
    match run {
        Err(e) => Err(spawn_error("sh.exec", e.as_str())),
        Ok(x) => {
            let ok: bool = match x.code {
                Some(c) => c == 0,
                None => false,
            };
            if ok {
                let text = lossy(x.stdout.as_slice());
                return Ok(trim_line_ends(text.as_str()));
            }
            let code: i64 = code_of(x.code);
            let mut m = "sh.exec: command exited with code ".to_owned();
            let digits = int_text(code);
            m.append(digits.as_str());
            m.append(": ");
            let text = lossy(x.stderr.as_slice());
            m.append(trim(text.as_str()));
            Err(m)
        },
    }
}

/// `sh.run(cmd)`: how the command ended. Only a shell that cannot start is an error.
pub fn run(ended: Result<Option<i32>, String>) -> (r: Result<i64, String>)
    ensures
        match ended {
            Err(e) => r matches Err(m) && m@ == "sh.run"@ + ": could not spawn shell: "@ + e@,
            Ok(code) => r matches Ok(c) && c == exit_code(code),
        },
{
    match ended {
        Err(e) => Err(spawn_error("sh.run", e.as_str())),
        Ok(code) => Ok(code_of(code)),
    }
}

/// `sh.output(cmd)`: everything the command wrote and how it ended. Only a shell that
/// cannot start is an error.
pub fn output(run: Result<ShellRun, String>) -> (r: Result<(String, String, i64), String>)
    ensures
        match run {
            Err(e) => r matches Err(m) && m@ == "sh.output"@ + ": could not spawn shell: "@
                + e@,
            Ok(x) => r matches Ok((a, b, c)) && a@ == lossy_text(x.stdout@) && b@
                == lossy_text(x.stderr@) && c == exit_code(x.code),
        },
{
    match run {
        Err(e) => Err(spawn_error("sh.output", e.as_str())),
        Ok(x) => Ok(
            (lossy(x.stdout.as_slice()), lossy(x.stderr.as_slice()), code_of(x.code)),
        ),
    }
}

/// What `sh.exec` hands on: the output, which is outside data, and the error. With an
/// error the output is empty.
pub fn jrt_sh_exec_impl(run: Result<ShellRun, String>) -> (r: (TaggedStr, Option<String>))
    ensures
        match run {
            Err(e) => emits(r.0, seq![], TAINTED) && (r.1 matches Some(m) && m@ == "sh.exec"@
                + ": could not spawn shell: "@ + e@),
            Ok(x) => if x.code == Some(0i32) {
                r.1 is None && emits(r.0, without_line_ends(lossy_text(x.stdout@)), TAINTED)
            } else {
                emits(r.0, seq![], TAINTED) && (r.1 matches Some(m) && m@ == exec_error(
                    x.code,
                    x.stderr@,
                ))
            },
        },
{
    match exec(run) {
        Ok(s) => (TaggedStr::new(s, TAINTED), None),
        Err(m) => (TaggedStr::new(String::new(), TAINTED), Some(m)),
    }
}

/// What `sh.run` hands on: the exit code and the error. With an error the code is -1.
pub fn jrt_sh_run_impl(ended: Result<Option<i32>, String>) -> (r: (i64, Option<String>))
    ensures
        match ended {
            Err(e) => r.0 == -1 && (r.1 matches Some(m) && m@ == "sh.run"@
                + ": could not spawn shell: "@ + e@),
            Ok(code) => r.0 == exit_code(code) && r.1 is None,
        },
{
    match run(ended) {
        Ok(c) => (c, None),
        Err(m) => (-1, Some(m)),
    }
}

/// Trimming line ends leaves none, and takes nothing else.
pub proof fn line_ends_are_gone(s: Seq<char>)
    ensures
        without_line_ends(s).len() > 0 ==> without_line_ends(s).last() != '\n',
        without_line_ends(without_line_ends(s)) == without_line_ends(s),
        without_line_ends(s).len() <= s.len(),
        without_line_ends(s) == s.take(without_line_ends(s).len() as int),
        forall|i: int| without_line_ends(s).len() <= i < s.len() ==> s[i] == '\n',
    decreases s.len(),
{
    if s.len() > 0 && s.last() == '\n' {
        let t = s.drop_last();
        line_ends_are_gone(t);
        let n = without_line_ends(t).len() as int;
        assert(t.take(n) =~= s.take(n));
        assert forall|i: int| n <= i < s.len() implies s[i] == '\n' by {
            if i < t.len() {
                assert(t[i] == '\n');
            }
        }
    } else {
        assert(s.take(s.len() as int) =~= s);
    }
}

/// A command that ended without a code counts as minus one, and a failure tells the code and
/// what was said, without the white space around it.
pub proof fn failures_tell_the_code(c: i32, stderr: Seq<u8>)
    ensures
        exit_code(Some(c)) == c,
        exit_code(None) == -1,
        exec_error(Some(c), stderr) == "sh.exec: command exited with code "@ + decimal(c as int)
            + ": "@ + trimmed(lossy_text(stderr)),
{
}

} // verus!
