//! Requests over the network, by way of the `curl` program.
//!
//! The caller starts the program. Which arguments it is given and what its output means
//! is decided here. Only a failed transport is an error; a status of 4xx or 5xx is an
//! answer like any other. What comes back is outside data.

use vstd::prelude::*;

use crate::bytesf::BytesObj;
use crate::coll::DictObj;
use crate::cstr::{borrow, borrow_bytes, lossy};
use crate::gc::Heap;
use crate::obj::{Cell, Obj};
use crate::ops::string_at;
use crate::string::TaggedStr;
use crate::text::{int_text, str_eq};
use crate::trust::TAINTED;
use crate::value::JadeValue;
#[allow(unused_imports)]
use crate::bytesf::bytes_at;
#[allow(unused_imports)]
use crate::coll::has_key;
#[allow(unused_imports)]
use crate::cstr::{lossy_text, no_nul_before_nul, text_or_empty, until_nul};
#[allow(unused_imports)]
use crate::ops::str_at;
#[allow(unused_imports)]
use crate::string::{no_zero, until_zero};
#[allow(unused_imports)]
use crate::ffi_coll::{dict_at, key_text, object_at, word_stands_for};
#[allow(unused_imports)]
use crate::gc::{points_at, word_roundtrip, MAX_CELLS};
#[allow(unused_imports)]
use crate::jsonf::extends;
#[allow(unused_imports)]
use crate::store::entry_views;
#[allow(unused_imports)]
use crate::text::{decimal, texts};
#[allow(unused_imports)]
use crate::value::{decode, wrap63, Val};
#[allow(unused_imports)]
use crate::gc::fresh_from;
#[allow(unused_imports)]
use crate::heap::ObjKind;
#[allow(unused_imports)]
use crate::ffi_coll::text_cell;

verus! {

// ── The request ──────────────────────────────────────────────────────────────

/// Why `curl` gave up, by its exit code.
pub open spec fn spec_reason(code: int) -> Seq<char> {
    if code == 6 {
        "could not resolve host"@
    } else if code == 7 {
        "could not connect to host"@
    } else if code == 28 {
        "request timed out"@
    } else if code == 35 {
        "TLS handshake failed"@
    } else if code == 127 {
        "curl executable not found"@
    } else {
        "request failed"@
    }
}

/// Why `curl` gave up, by its exit code.
pub fn curl_reason(code: i32) -> (s: &'static str)
    ensures
        s@ == spec_reason(code as int),
{
    if code == 6 {
        "could not resolve host"
    } else if code == 7 {
        "could not connect to host"
    } else if code == 28 {
        "request timed out"
    } else if code == 35 {
        "TLS handshake failed"
    } else if code == 127 {
        "curl executable not found"
    } else {
        "request failed"
    }
}

/// The headers as texts.
pub open spec fn header_texts(headers: Seq<(String, String)>) -> Seq<(Seq<char>, Seq<char>)> {
    Seq::new(headers.len(), |i: int| (headers[i].0@, headers[i].1@))
}

/// The arguments of the first `n` headers.
pub open spec fn header_args(headers: Seq<(Seq<char>, Seq<char>)>, n: nat) -> Seq<Seq<char>>
    decreases n,
{
    if n == 0 {
        seq![]
    } else {
        header_args(headers, (n - 1) as nat) + seq![
            "-H"@,
            headers[n - 1].0 + ": "@ + headers[n - 1].1,
        ]
    }
}

/// The arguments of a request.
pub open spec fn spec_args(
    method: Seq<char>,
    url: Seq<char>,
    has_body: bool,
    headers: Seq<(Seq<char>, Seq<char>)>,
) -> Seq<Seq<char>> {
    seq!["-sS"@] + (if method == "HEAD"@ {
        seq!["-o"@, "/dev/null"@]
    } else {
        seq![]
    }) + seq!["-X"@, method] + header_args(headers, headers.len()) + (if has_body {
        seq!["--data-binary"@, "@-"@]
    } else {
        seq![]
    }) + seq!["-w"@, "\nJADE_STATUS:%{http_code}"@, "--"@, url]
}

/// Append an argument.
fn add_arg(v: &mut Vec<String>, s: &str)
    ensures
        texts(final(v)@) == texts(old(v)@).push(s@),
{
    v.push(s.to_owned());
    assert(texts(v@) =~= texts(old(v)@).push(s@));
}

/// The arguments of a request. The body, if there is one, goes through standard input.
pub fn request_args(method: &str, url: &str, has_body: bool, headers: &[(String, String)]) -> (v:
    Vec<String>)
    ensures
        texts(v@) == spec_args(method@, url@, has_body, header_texts(headers@)),
{
    let mut v: Vec<String> = Vec::new();
    let ghost hs = header_texts(headers@);
    add_arg(&mut v, "-sS");
    if str_eq(method, "HEAD") {
        add_arg(&mut v, "-o");
        add_arg(&mut v, "/dev/null");
    }
    add_arg(&mut v, "-X");
    add_arg(&mut v, method);
    let ghost head = texts(v@);
    proof {
        let none: Seq<Seq<char>> = seq![];
        assert(texts(Seq::<String>::empty()) =~= none);
        assert(head =~= seq!["-sS"@] + (if method@ == "HEAD"@ {
            seq!["-o"@, "/dev/null"@]
        } else {
            seq![]
        }) + seq!["-X"@, method@]);
        assert(head + header_args(hs, 0) =~= head);
    }
    let mut i: usize = 0;
    while i < headers.len()
        invariant
            i <= headers@.len(),
            hs == header_texts(headers@),
            texts(v@) == head + header_args(hs, i as nat),
        decreases headers@.len() - i,
    {
        add_arg(&mut v, "-H");
        let mut line = headers[i].0.clone();
        line.append(": ");
        line.append(headers[i].1.as_str());
        add_arg(&mut v, line.as_str());
        i += 1;
        assert(texts(v@) =~= head + header_args(hs, i as nat));
    }
    if has_body {
        add_arg(&mut v, "--data-binary");
        add_arg(&mut v, "@-");
    }
    add_arg(&mut v, "-w");
    add_arg(&mut v, "\nJADE_STATUS:%{http_code}");
    add_arg(&mut v, "--");
    add_arg(&mut v, url);
    assert(texts(v@) =~= spec_args(method@, url@, has_body, hs));
    v
}

// ── The reply ────────────────────────────────────────────────────────────────

/// What became of the program.
pub enum CurlRun {
    /// It could not be started.
    NotStarted,
    /// It was started, and its output is lost.
    Lost,
    /// It ended with this code, if not by a signal, and wrote this.
    Ended(Option<i32>, Vec<u8>),
}

/// The octets that come before the status.
pub const MARK: [u8; 13] = [10, 74, 65, 68, 69, 95, 83, 84, 65, 84, 85, 83, 58];

/// The mark stands at `i`.
pub open spec fn mark_at(buf: Seq<u8>, i: int) -> bool {
    0 <= i <= buf.len() - 13 && buf.subrange(i, i + 13) == MARK@
}

/// Where the last mark at or before `n` stands; -1 when there is none.
pub open spec fn last_mark(buf: Seq<u8>, n: int) -> int
    decreases n + 1,
{
    if n < 0 {
        -1
    } else if mark_at(buf, n) {
        n
    } else {
        last_mark(buf, n - 1)
    }
}

/// The octet is an ASCII digit.
pub open spec fn is_digit(b: u8) -> bool {
    48 <= b <= 57
}

/// How many digits the octets begin with.
pub open spec fn digit_run(d: Seq<u8>) -> nat
    decreases d.len(),
{
    if d.len() > 0 && is_digit(d[0]) {
        1 + digit_run(d.skip(1))
    } else {
        0
    }
}

/// The number the first `n` digits spell.
pub open spec fn digits_value(d: Seq<u8>, n: nat) -> int
    decreases n,
{
    if n == 0 {
        0
    } else {
        10 * digits_value(d, (n - 1) as nat) + (d[n - 1] - 48)
    }
}

/// The number the octets begin with; 0 when they begin with none, or with one that is
/// too large.
pub open spec fn status_of(d: Seq<u8>) -> int {
    let v = digits_value(d, digit_run(d));
    if v <= i64::MAX {
        v
    } else {
        0
    }
}

/// The status and the body of a reply: what follows and what precedes the last mark.
pub open spec fn spec_reply(buf: Seq<u8>) -> (int, Seq<u8>) {
    let i = last_mark(buf, buf.len() - 13);
    if i < 0 {
        (0, buf)
    } else {
        (status_of(buf.skip(i + 13)), buf.take(i))
    }
}

/// Whether the mark stands at `i`.
fn marked(buf: &[u8], i: usize) -> (r: bool)
    requires
        i + 13 <= buf@.len(),
    ensures
        r == mark_at(buf@, i as int),
{
    let mark: [u8; 13] = MARK;
    let total: usize = buf.len();
    let mut k: usize = 0;
    while k < 13
        invariant
            k <= 13,
            total == buf@.len(),
            i + 13 <= total,
            mark@ == MARK@,
            forall|j: int| 0 <= j < k ==> buf@[i + j] == mark@[j],
        decreases 13 - k,
    {
        if buf[i + k] != mark[k] {
            assert(buf@.subrange(i as int, i + 13)[k as int] != MARK@[k as int]);
            return false;
        }
        k += 1;
    }
    assert(buf@.subrange(i as int, i + 13) =~= MARK@);
    true
}

/// Digits within a run are digits.
proof fn run_is_digits(d: Seq<u8>, n: int)
    requires
        0 <= n <= d.len(),
        forall|i: int| 0 <= i < n ==> is_digit(#[trigger] d[i]),
        n < d.len() ==> !is_digit(d[n]),
    ensures
        digit_run(d) == n,
    decreases n,
{
    if n > 0 {
        let r = d.skip(1);
        assert forall|i: int| 0 <= i < n - 1 implies is_digit(#[trigger] r[i]) by {
            assert(is_digit(d[i + 1]));
        }
        if n < d.len() {
            assert(r[n - 1] == d[n]);
        }
        assert(is_digit(d[0]));
        run_is_digits(r, n - 1);
    }
}

/// More digits make a number at least as large.
proof fn value_grows(d: Seq<u8>, n: nat, m: nat)
    requires
        n <= m <= d.len(),
        forall|i: int| 0 <= i < m ==> is_digit(#[trigger] d[i]),
    ensures
        0 <= digits_value(d, n) <= digits_value(d, m),
    decreases m,
{
    if m > 0 {
        assert(is_digit(d[m - 1]));
        if n < m {
            value_grows(d, n, (m - 1) as nat);
        } else {
            value_grows(d, (m - 1) as nat, (m - 1) as nat);
        }
    }
}

/// The number the octets begin with.
pub fn parse_status(d: &[u8]) -> (r: i64)
    ensures
        r == status_of(d@),
{
    let mut n: usize = 0;
    while n < d.len() && 48 <= d[n] && d[n] <= 57
        invariant
            n <= d@.len(),
            forall|i: int| 0 <= i < n ==> is_digit(#[trigger] d@[i]),
        decreases d@.len() - n,
    {
        n += 1;
    }
    proof {
        run_is_digits(d@, n as int);
    }
    let mut v: i64 = 0;
    let mut i: usize = 0;
    while i < n
        invariant
            i <= n <= d@.len(),
            forall|k: int| 0 <= k < n ==> is_digit(#[trigger] d@[k]),
            v == digits_value(d@, i as nat),
            0 <= v,
            n == digit_run(d@),
        decreases n - i,
    {
        assert(is_digit(d@[i as int]));
        proof {
            value_grows(d@, (i + 1) as nat, n as nat);
        }
        let x: i64 = (d[i] - 48) as i64;
        match v.checked_mul(10) {
            None => {
                return 0;
            },
            Some(t) => match t.checked_add(x) {
                None => {
                    return 0;
                },
                Some(u) => {
                    v = u;
                },
            },
        }
        i += 1;
    }
    v
}

/// Split a reply into its status and its body.
pub fn split_reply(buf: &[u8]) -> (r: (i64, Vec<u8>))
    ensures
        (r.0 as int, r.1@) == spec_reply(buf@),
{
    let total: usize = buf.len();
    let mut body: Vec<u8> = Vec::new();
    if total >= 13 {
        let mut i: usize = total - 13;
        loop
            invariant
                total == buf@.len(),
                i + 13 <= total,
                body@ == Seq::<u8>::empty(),
                last_mark(buf@, i as int) == last_mark(buf@, buf@.len() - 13),
            ensures
                last_mark(buf@, buf@.len() - 13) < 0,
                body@ == Seq::<u8>::empty(),
            decreases i,
        {
            if marked(buf, i) {
                let head = vstd::slice::slice_subrange(buf, 0, i);
                body.extend_from_slice(head);
                assert(body@ =~= buf@.take(i as int));
                let tail = vstd::slice::slice_subrange(buf, i + 13, total);
                assert(tail@ =~= buf@.skip(i + 13));
                return (parse_status(tail), body);
            }
            if i == 0 {
                assert(last_mark(buf@, -1) == -1);
                break;
            }
            i -= 1;
        }
    }
    body.extend_from_slice(buf);
    assert(body@ =~= buf@);
    (0, body)
}

/// What is said of a transport that failed.
pub open spec fn failure(method: Seq<char>, url: Seq<char>, code: int) -> Seq<char> {
    "http "@ + method + " '"@ + url + "': "@ + spec_reason(code) + " (curl exit "@ + decimal(code)
        + ")"@
}

/// What is said of a transport that failed.
pub fn failure_text(method: &str, url: &str, code: i32) -> (s: String)
    ensures
        s@ == failure(method@, url@, code as int),
{
    let mut s = "http ".to_owned();
    s.append(method);
    s.append(" '");
    s.append(url);
    s.append("': ");
    s.append(curl_reason(code));
    s.append(" (curl exit ");
    let digits = int_text(code as i64);
    s.append(digits.as_str());
    s.append(")");
    s
}

/// What a request answers, by what became of the program.
pub open spec fn answers(
    method: Seq<char>,
    url: Seq<char>,
    run: CurlRun,
    r: Result<(i64, Vec<u8>), String>,
) -> bool {
    match run {
        CurlRun::NotStarted => r matches Err(m) && m@ == failure(method, url, 127),
        CurlRun::Lost => r matches Err(m) && m@ == failure(method, url, -1),
        CurlRun::Ended(Some(code), out) => if code == 0 {
            r matches Ok((status, body)) && (status as int, body@) == spec_reply(out@)
        } else {
            r matches Err(m) && m@ == failure(method, url, code as int)
        },
        CurlRun::Ended(None, _) => r matches Err(m) && m@ == failure(method, url, -1),
    }
}

/// What a request answers, by what became of the program.
pub fn request_outcome(method: &str, url: &str, run: CurlRun) -> (r: Result<
    (i64, Vec<u8>),
    String,
>)
    ensures
        answers(method@, url@, run, r),
{
    match run {
        CurlRun::NotStarted => Err(failure_text(method, url, 127)),
        CurlRun::Lost => Err(failure_text(method, url, -1)),
        CurlRun::Ended(code, out) => {
            let c: i32 = match code {
                Some(c) => c,
                None => -1,
            };
            if c != 0 {
                return Err(failure_text(method, url, c));
            }
            Ok(split_reply(out.as_slice()))
        },
    }
}

/// The program was run with exactly the arguments of the request, and this became of it.
pub open spec fn ran<F: Fn(&Vec<String>, Option<&[u8]>) -> CurlRun>(
    curl: F,
    args: Seq<Seq<char>>,
    body: Option<&[u8]>,
    run: CurlRun,
) -> bool {
    exists|a: &Vec<String>| texts(a@) == args && call_ensures(curl, (a, body), run)
}

/// The program was run once on the request, and the answer is what its run means.
pub open spec fn asked_octets<F: Fn(&Vec<String>, Option<&[u8]>) -> CurlRun>(
    curl: F,
    method: Seq<char>,
    url: Seq<char>,
    body: Option<&[u8]>,
    headers: Seq<(Seq<char>, Seq<char>)>,
    r: Result<(i64, Vec<u8>), String>,
) -> bool {
    exists|run: CurlRun|
        ran(curl, spec_args(method, url, body is Some, headers), body, run) && #[trigger] answers(
            method,
            url,
            run,
            r,
        )
}

/// A request whose reply is octets: run the program once, and say what it answered.
pub fn request_bytes<F: Fn(&Vec<String>, Option<&[u8]>) -> CurlRun>(
    method: &str,
    url: &str,
    body: Option<&[u8]>,
    headers: &[(String, String)],
    curl: &F,
) -> (r: Result<(i64, Vec<u8>), String>)
    requires
        forall|a: &Vec<String>, b: Option<&[u8]>| call_requires(*curl, (a, b)),
    ensures
        asked_octets(*curl, method@, url@, body, header_texts(headers@), r),
{
    let args = request_args(method, url, body.is_some(), headers);
    let run = curl(&args, body);
    let ghost seen = run;
    assert(call_ensures(*curl, (&args, body), seen));
    let r = request_outcome(method, url, run);
    assert(answers(method@, url@, seen, r));
    r
}

/// The text of a reply: up to the first zero octet, malformed parts replaced.
pub fn body_text(bytes: &[u8]) -> (s: String)
    ensures
        s@ == lossy_text(until_nul(bytes@)),
        vstd::utf8::valid_utf8(until_nul(bytes@)) ==> s@ == vstd::utf8::decode_utf8(
            until_nul(bytes@),
        ),
        no_zero(s@),
{
    proof {
        no_nul_before_nul(bytes@);
    }
    lossy(borrow_bytes(Some(bytes)))
}

/// The answer to a text request, from the answer in octets: the text up to the first
/// zero octet, so that it holds no zero character.
pub open spec fn as_text(
    octets: Result<(i64, Vec<u8>), String>,
    r: Result<(i64, String), String>,
) -> bool {
    match octets {
        Ok((status, body)) => r matches Ok((s, t)) && s == status && t@ == lossy_text(
            until_nul(body@),
        ) && no_zero(t@),
        Err(m) => r == Err::<(i64, String), String>(m),
    }
}

/// The answer to a text request, from the answer in octets.
pub fn text_answer(octets: Result<(i64, Vec<u8>), String>) -> (r: Result<(i64, String), String>)
    ensures
        as_text(octets, r),
{
    match octets {
        Ok((status, body)) => Ok((status, body_text(body.as_slice()))),
        Err(m) => Err(m),
    }
}

/// The program was run once on the request, and the answer is what its run means, as
/// text.
pub open spec fn asked<F: Fn(&Vec<String>, Option<&[u8]>) -> CurlRun>(
    curl: F,
    method: Seq<char>,
    url: Seq<char>,
    body: Option<&str>,
    headers: Seq<(Seq<char>, Seq<char>)>,
    r: Result<(i64, String), String>,
) -> bool {
    exists|sent: Option<&[u8]>, octets: Result<(i64, Vec<u8>), String>|
        #![trigger sent_octets(body, sent), as_text(octets, r)]
        sent_octets(body, sent) && asked_octets(curl, method, url, sent, headers, octets)
            && as_text(octets, r)
}

/// A request whose body and reply are text.
pub fn request<F: Fn(&Vec<String>, Option<&[u8]>) -> CurlRun>(
    method: &str,
    url: &str,
    body: Option<&str>,
    headers: &[(String, String)],
    curl: &F,
) -> (r: Result<(i64, String), String>)
    requires
        forall|a: &Vec<String>, b: Option<&[u8]>| call_requires(*curl, (a, b)),
    ensures
        asked(*curl, method@, url@, body, header_texts(headers@), r),
        r matches Ok((_, t)) ==> no_zero(t@),
{
    let sent: Option<&[u8]> = match body {
        Some(b) => Some(b.as_bytes()),
        None => None,
    };
    let octets = request_bytes(method, url, sent, headers, curl);
    let ghost seen = octets;
    let r = text_answer(octets);
    assert(sent_octets(body, sent));
    assert(as_text(seen, r));
    r
}

/// The octets sent are those of the body.
pub open spec fn sent_octets(body: Option<&str>, sent: Option<&[u8]>) -> bool {
    match body {
        Some(b) => sent matches Some(s) && s@ == vstd::utf8::encode_utf8(b@),
        None => sent is None,
    }
}

// ── Words in and out ─────────────────────────────────────────────────────────

/// The text of a header value; empty for a word that is no string.
pub fn header_val(h: &Heap, w: i64) -> (s: String)
    ensures
        s@ == key_text(h.cells@, w),
{
    let v = JadeValue::from_word(w);
    if v.is_str() {
        match string_at(h, v.as_ptr()) {
            Some(s) => s.text.clone(),
            None => String::new(),
        }
    } else {
        String::new()
    }
}

/// The names and the values of a header dict.
pub open spec fn dict_headers(cells: Seq<Cell>, d: Seq<(Seq<char>, i64)>) -> Seq<
    (Seq<char>, Seq<char>),
> {
    Seq::new(d.len(), |i: int| (d[i].0, key_text(cells, d[i].1)))
}

/// The headers in a dict; a word that is no dict has none.
pub fn read_headers(h: &Heap, w: i64) -> (v: Vec<(String, String)>)
    ensures
        header_texts(v@) == (match dict_at(h.cells@, w) {
            Some(d) => dict_headers(h.cells@, d@),
            None => seq![],
        }),
{
    let mut v: Vec<(String, String)> = Vec::new();
    match h.object(w) {
        Some(Obj::Dict(d)) => {
            let es = d.entries();
            let mut i: usize = 0;
            while i < es.len()
                invariant
                    i <= es@.len(),
                    entry_views(es@) == d@,
                    v@.len() == i,
                    forall|k: int|
                        0 <= k < i ==> (#[trigger] v@[k]).0@ == d@[k].0 && v@[k].1@ == key_text(
                            h.cells@,
                            d@[k].1,
                        ),
                decreases es@.len() - i,
            {
                assert(entry_views(es@)[i as int] == (es@[i as int].0@, es@[i as int].1));
                v.push((es[i].0.clone(), header_val(h, es[i].1)));
                i += 1;
            }
            assert(entry_views(es@).len() == es@.len());
            assert(header_texts(v@) =~= dict_headers(h.cells@, d@));
        },
        _ => {
            let ghost none: Seq<(Seq<char>, Seq<char>)> = seq![];
            assert(header_texts(v@) =~= none);
        },
    }
    v
}

/// The dict of a reply holds the status and then the body.
pub open spec fn reply_entries(d: Seq<(Seq<char>, i64)>, status: int, body: i64) -> bool {
    &&& d.len() == 2
    &&& d[0].0 == "status"@ && decode(d[0].1 as u64) == Val::Int(wrap63(status))
    &&& d[1].0 == "body"@ && d[1].1 == body
}

/// A dict of a status and the word of a body.
fn reply_dict(status: i64, body: i64) -> (d: DictObj)
    ensures
        d.wf(),
        d.header.fresh(ObjKind::Dict),
        reply_entries(d@, status as int, body),
{
    let v = JadeValue::from_int(status);
    let s: i64 = v.word();
    proof {
        word_roundtrip(v.bits);
        reveal_strlit("status");
        reveal_strlit("body");
    }
    let mut d = DictObj::new();
    d.insert("status", s);
    assert(d@ =~= seq![("status"@, s)]);
    d.insert("body", body);
    assert(d@ =~= seq![("status"@, s), ("body"@, body)]) by {
        let one = seq![("status"@, s)];
        assert("body"@.len() != "status"@.len());
        assert(!has_key(one, "body"@));
    }
    d
}

/// A word of a new dict of a status and a text that is not to be trusted.
pub open spec fn text_reply_at(
    before: Seq<Cell>,
    after: Seq<Cell>,
    w: i64,
    status: int,
    body: Seq<char>,
) -> bool {
    &&& extends(before, after)
    &&& after.len() == before.len() + 2
    &&& fresh_from(after, before.len() as int)
    &&& points_at(w) == before.len() + 1
    &&& dict_at(after, w) matches Some(d) && d@.len() == 2 && reply_entries(d@, status, d@[1].1)
        && word_stands_for(after, d@[1].1, body, TAINTED) && text_cell(d@[1].1) == before.len()
}

/// A word of a new dict of a status and a blob that is not to be trusted.
pub open spec fn octets_reply_at(
    before: Seq<Cell>,
    after: Seq<Cell>,
    w: i64,
    status: int,
    body: Seq<u8>,
) -> bool {
    &&& extends(before, after)
    &&& after.len() == before.len() + 2
    &&& fresh_from(after, before.len() as int)
    &&& points_at(w) == before.len() + 1
    &&& dict_at(after, w) matches Some(d) && d@.len() == 2 && reply_entries(d@, status, d@[1].1)
        && points_at(d@[1].1) == before.len() && (bytes_at(after, d@[1].1) matches Some(b)
        && b.data@ == body && b.trust == TAINTED)
}

/// A new dict of a status and a text that is not to be trusted.
pub fn make_dict(h: &mut Heap, status: i64, body: &str) -> (w: i64)
    requires
        old(h).wf(),
        old(h).cells@.len() + 2 <= MAX_CELLS,
    ensures
        final(h).wf(),
        final(h).rc_on == old(h).rc_on,
        text_reply_at(old(h).cells@, final(h).cells@, w, status as int, body@),
{
    let b: i64 = h.new_str(TaggedStr::dup(body, TAINTED));
    let d = reply_dict(status, b);
    h.leak_obj(Obj::Dict(d))
}

/// A new dict of a status and a blob that is not to be trusted.
pub fn make_bytes_dict(h: &mut Heap, status: i64, body: Vec<u8>) -> (w: i64)
    requires
        old(h).wf(),
        old(h).cells@.len() + 2 <= MAX_CELLS,
    ensures
        final(h).wf(),
        final(h).rc_on == old(h).rc_on,
        octets_reply_at(old(h).cells@, final(h).cells@, w, status as int, body@),
{
    let b: i64 = h.leak_obj(Obj::Bytes(BytesObj::new(body, TAINTED)));
    let d = reply_dict(status, b);
    h.leak_obj(Obj::Dict(d))
}

/// The octets of a word that holds a blob; nothing for any other word.
pub fn bytes_arg(h: &Heap, w: i64) -> (r: Option<&[u8]>)
    ensures
        match bytes_at(h.cells@, w) {
            Some(b) => r matches Some(s) && s@ == b.data@,
            None => r is None,
        },
{
    match h.object(w) {
        Some(Obj::Bytes(b)) => Some(b.as_slice()),
        _ => None,
    }
}

/// The name of a value's type.
pub open spec fn word_type(cells: Seq<Cell>, w: i64) -> Seq<char> {
    match decode(w as u64) {
        Val::Int(_) => "int"@,
        Val::Str(_) => "str"@,
        Val::Float(_) => "float"@,
        Val::Bool(_) => "bool"@,
        Val::Nil => "nil"@,
        Val::Char(_, _) => "char"@,
        _ => match object_at(cells, w) {
            Some(Obj::Array(_)) => "array"@,
            Some(Obj::Dict(_)) => "dict"@,
            Some(Obj::Struct(_)) => "struct"@,
            Some(Obj::Fn(_)) => "fn"@,
            Some(Obj::Future(_)) => "future"@,
            Some(Obj::Prompt(_)) => "prompt"@,
            Some(Obj::Grammar(_)) => "grammar"@,
            Some(Obj::Bound(_)) => "method"@,
            Some(Obj::Bytes(_)) => "bytes"@,
            _ => "value"@,
        },
    }
}

/// The name of a value's type.
pub fn word_type_name(h: &Heap, w: i64) -> (s: &'static str)
    ensures
        s@ == word_type(h.cells@, w),
{
    let v = JadeValue::from_word(w);
    if v.is_int() {
        return "int";
    }
    if v.is_str() {
        return "str";
    }
    if v.is_float() {
        return "float";
    }
    if v.is_bool() {
        return "bool";
    }
    if v.is_nil() {
        return "nil";
    }
    if v.is_char() {
        return "char";
    }
    match h.object(w) {
        Some(Obj::Array(_)) => "array",
        Some(Obj::Dict(_)) => "dict",
        Some(Obj::Struct(_)) => "struct",
        Some(Obj::Fn(_)) => "fn",
        Some(Obj::Future(_)) => "future",
        Some(Obj::Prompt(_)) => "prompt",
        Some(Obj::Grammar(_)) => "grammar",
        Some(Obj::Bound(_)) => "method",
        Some(Obj::Bytes(_)) => "bytes",
        _ => "value",
    }
}

/// The octets `http.post_bytes` sends: those of a blob; anything else is an error that
/// names what was given.
pub fn post_body(h: &Heap, w: i64) -> (r: Result<&[u8], String>)
    ensures
        match bytes_at(h.cells@, w) {
            Some(b) => r matches Ok(s) && s@ == b.data@,
            None => r matches Err(m) && m@ == "http.post_bytes expects bytes, got "@ + word_type(
                h.cells@,
                w,
            ),
        },
{
    match bytes_arg(h, w) {
        Some(b) => Ok(b),
        None => {
            let mut m = "http.post_bytes expects bytes, got ".to_owned();
            m.append(word_type_name(h, w));
            Err(m)
        },
    }
}

// ── Requests from words ──────────────────────────────────────────────────────

/// The headers a word gives: the entries of a dict, and none for anything else.
pub open spec fn headers_at(cells: Seq<Cell>, w: i64) -> Seq<(Seq<char>, Seq<char>)> {
    match dict_at(cells, w) {
        Some(d) => dict_headers(cells, d@),
        None => seq![],
    }
}

/// What is handed on for an answer: a dict of it, or the error and a dict of status 0
/// and an empty text.
pub open spec fn hands_text(
    before: Seq<Cell>,
    after: Seq<Cell>,
    answer: Result<(i64, String), String>,
    r: (i64, Option<String>),
) -> bool {
    match answer {
        Ok((status, body)) => r.1 is None && text_reply_at(
            before,
            after,
            r.0,
            status as int,
            body@,
        ),
        Err(m) => r.1 == Some(m) && text_reply_at(before, after, r.0, 0, seq![]),
    }
}

/// What is handed on for an answer: a dict of it, or the error and a dict of status 0
/// and an empty blob.
pub open spec fn hands_octets(
    before: Seq<Cell>,
    after: Seq<Cell>,
    answer: Result<(i64, Vec<u8>), String>,
    r: (i64, Option<String>),
) -> bool {
    match answer {
        Ok((status, body)) => r.1 is None && octets_reply_at(
            before,
            after,
            r.0,
            status as int,
            body@,
        ),
        Err(m) => r.1 == Some(m) && octets_reply_at(before, after, r.0, 0, seq![]),
    }
}

/// A text answer as words.
pub fn text_words(h: &mut Heap, answer: Result<(i64, String), String>) -> (r: (
    i64,
    Option<String>,
))
    requires
        old(h).wf(),
        old(h).cells@.len() + 2 <= MAX_CELLS,
    ensures
        final(h).wf(),
        final(h).rc_on == old(h).rc_on,
        hands_text(old(h).cells@, final(h).cells@, answer, r),
{
    match answer {
        Ok((status, body)) => (make_dict(h, status, body.as_str()), None),
        Err(m) => {
            proof {
                reveal_strlit("");
                assert(""@ =~= Seq::<char>::empty());
            }
            (make_dict(h, 0, ""), Some(m))
        },
    }
}

/// An answer in octets as words.
pub fn octets_words(h: &mut Heap, answer: Result<(i64, Vec<u8>), String>) -> (r: (
    i64,
    Option<String>,
))
    requires
        old(h).wf(),
        old(h).cells@.len() + 2 <= MAX_CELLS,
    ensures
        final(h).wf(),
        final(h).rc_on == old(h).rc_on,
        hands_octets(old(h).cells@, final(h).cells@, answer, r),
{
    match answer {
        Ok((status, body)) => (make_bytes_dict(h, status, body), None),
        Err(m) => {
            let none: Vec<u8> = Vec::new();
            assert(none@ =~= Seq::<u8>::empty());
            (make_bytes_dict(h, 0, none), Some(m))
        },
    }
}

/// A text request and what is handed on of its answer.
pub fn request_aot<F: Fn(&Vec<String>, Option<&[u8]>) -> CurlRun>(
    h: &mut Heap,
    method: &str,
    url: Option<&TaggedStr>,
    body: Option<&str>,
    headers: i64,
    curl: &F,
) -> (r: (i64, Option<String>))
    requires
        old(h).wf(),
        old(h).cells@.len() + 2 <= MAX_CELLS,
        forall|a: &Vec<String>, b: Option<&[u8]>| call_requires(*curl, (a, b)),
    ensures
        final(h).wf(),
        final(h).rc_on == old(h).rc_on,
        exists|answer: Result<(i64, String), String>|
            asked(
                *curl,
                method@,
                text_or_empty(url),
                body,
                headers_at(old(h).cells@, headers),
                answer,
            ) && #[trigger] hands_text(old(h).cells@, final(h).cells@, answer, r),
{
    let list = read_headers(h, headers);
    let answer = request(method, borrow(url), body, list.as_slice(), curl);
    let ghost seen = answer;
    let r = text_words(h, answer);
    assert(hands_text(old(h).cells@, h.cells@, seen, r));
    r
}

/// A request for octets and what is handed on of its answer.
pub fn request_bytes_aot<F: Fn(&Vec<String>, Option<&[u8]>) -> CurlRun>(
    h: &mut Heap,
    method: &str,
    url: Option<&TaggedStr>,
    body: Option<&[u8]>,
    headers: i64,
    curl: &F,
) -> (r: (i64, Option<String>))
    requires
        old(h).wf(),
        old(h).cells@.len() + 2 <= MAX_CELLS,
        forall|a: &Vec<String>, b: Option<&[u8]>| call_requires(*curl, (a, b)),
    ensures
        final(h).wf(),
        final(h).rc_on == old(h).rc_on,
        exists|answer: Result<(i64, Vec<u8>), String>|
            asked_octets(
                *curl,
                method@,
                text_or_empty(url),
                body,
                headers_at(old(h).cells@, headers),
                answer,
            ) && #[trigger] hands_octets(old(h).cells@, final(h).cells@, answer, r),
{
    let list = read_headers(h, headers);
    let answer = request_bytes(method, borrow(url), body, list.as_slice(), curl);
    let ghost seen = answer;
    let r = octets_words(h, answer);
    assert(hands_octets(old(h).cells@, h.cells@, seen, r));
    r
}

/// A GET request for text.
pub fn jrt_http_get_impl<F: Fn(&Vec<String>, Option<&[u8]>) -> CurlRun>(
    h: &mut Heap,
    url: Option<&TaggedStr>,
    headers: i64,
    curl: &F,
) -> (r: (i64, Option<String>))
    requires
        old(h).wf(),
        old(h).cells@.len() + 2 <= MAX_CELLS,
        forall|a: &Vec<String>, b: Option<&[u8]>| call_requires(*curl, (a, b)),
    ensures
        final(h).wf(),
        final(h).rc_on == old(h).rc_on,
        exists|answer: Result<(i64, String), String>|
            asked(
                *curl,
                "GET"@,
                text_or_empty(url),
                None,
                headers_at(old(h).cells@, headers),
                answer,
            ) && #[trigger] hands_text(old(h).cells@, final(h).cells@, answer, r),
{
    request_aot(h, "GET", url, None, headers, curl)
}

/// A POST request for text.
pub fn jrt_http_post_impl<F: Fn(&Vec<String>, Option<&[u8]>) -> CurlRun>(
    h: &mut Heap,
    url: Option<&TaggedStr>,
    body: Option<&TaggedStr>,
    headers: i64,
    curl: &F,
) -> (r: (i64, Option<String>))
    requires
        old(h).wf(),
        old(h).cells@.len() + 2 <= MAX_CELLS,
        forall|a: &Vec<String>, b: Option<&[u8]>| call_requires(*curl, (a, b)),
    ensures
        final(h).wf(),
        final(h).rc_on == old(h).rc_on,
        exists|answer: Result<(i64, String), String>, sent: &str|
            sent@ == text_or_empty(body) && #[trigger] asked(
                *curl,
                "POST"@,
                text_or_empty(url),
                Some(sent),
                headers_at(old(h).cells@, headers),
                answer,
            ) && hands_text(old(h).cells@, final(h).cells@, answer, r),
{
    request_aot(h, "POST", url, Some(borrow(body)), headers, curl)
}

/// A PUT request for text.
pub fn jrt_http_put_impl<F: Fn(&Vec<String>, Option<&[u8]>) -> CurlRun>(
    h: &mut Heap,
    url: Option<&TaggedStr>,
    body: Option<&TaggedStr>,
    headers: i64,
    curl: &F,
) -> (r: (i64, Option<String>))
    requires
        old(h).wf(),
        old(h).cells@.len() + 2 <= MAX_CELLS,
        forall|a: &Vec<String>, b: Option<&[u8]>| call_requires(*curl, (a, b)),
    ensures
        final(h).wf(),
        final(h).rc_on == old(h).rc_on,
        exists|answer: Result<(i64, String), String>, sent: &str|
            sent@ == text_or_empty(body) && #[trigger] asked(
                *curl,
                "PUT"@,
                text_or_empty(url),
                Some(sent),
                headers_at(old(h).cells@, headers),
                answer,
            ) && hands_text(old(h).cells@, final(h).cells@, answer, r),
{
    request_aot(h, "PUT", url, Some(borrow(body)), headers, curl)
}

/// A DELETE request for text.
pub fn jrt_http_delete_impl<F: Fn(&Vec<String>, Option<&[u8]>) -> CurlRun>(
    h: &mut Heap,
    url: Option<&TaggedStr>,
    headers: i64,
    curl: &F,
) -> (r: (i64, Option<String>))
    requires
        old(h).wf(),
        old(h).cells@.len() + 2 <= MAX_CELLS,
        forall|a: &Vec<String>, b: Option<&[u8]>| call_requires(*curl, (a, b)),
    ensures
        final(h).wf(),
        final(h).rc_on == old(h).rc_on,
        exists|answer: Result<(i64, String), String>|
            asked(
                *curl,
                "DELETE"@,
                text_or_empty(url),
                None,
                headers_at(old(h).cells@, headers),
                answer,
            ) && #[trigger] hands_text(old(h).cells@, final(h).cells@, answer, r),
{
    request_aot(h, "DELETE", url, None, headers, curl)
}

/// A HEAD request for text.
pub fn jrt_http_head_impl<F: Fn(&Vec<String>, Option<&[u8]>) -> CurlRun>(
    h: &mut Heap,
    url: Option<&TaggedStr>,
    headers: i64,
    curl: &F,
) -> (r: (i64, Option<String>))
    requires
        old(h).wf(),
        old(h).cells@.len() + 2 <= MAX_CELLS,
        forall|a: &Vec<String>, b: Option<&[u8]>| call_requires(*curl, (a, b)),
    ensures
        final(h).wf(),
        final(h).rc_on == old(h).rc_on,
        exists|answer: Result<(i64, String), String>|
            asked(
                *curl,
                "HEAD"@,
                text_or_empty(url),
                None,
                headers_at(old(h).cells@, headers),
                answer,
            ) && #[trigger] hands_text(old(h).cells@, final(h).cells@, answer, r),
{
    request_aot(h, "HEAD", url, None, headers, curl)
}

/// A GET request for octets.
pub fn jrt_http_get_bytes_impl<F: Fn(&Vec<String>, Option<&[u8]>) -> CurlRun>(
    h: &mut Heap,
    url: Option<&TaggedStr>,
    headers: i64,
    curl: &F,
) -> (r: (i64, Option<String>))
    requires
        old(h).wf(),
        old(h).cells@.len() + 2 <= MAX_CELLS,
        forall|a: &Vec<String>, b: Option<&[u8]>| call_requires(*curl, (a, b)),
    ensures
        final(h).wf(),
        final(h).rc_on == old(h).rc_on,
        exists|answer: Result<(i64, Vec<u8>), String>|
            asked_octets(
                *curl,
                "GET"@,
                text_or_empty(url),
                None,
                headers_at(old(h).cells@, headers),
                answer,
            ) && #[trigger] hands_octets(old(h).cells@, final(h).cells@, answer, r),
{
    request_bytes_aot(h, "GET", url, None, headers, curl)
}

/// A POST request of a blob, for octets. A word that is no blob is not sent: the error
/// names its type.
pub fn jrt_http_post_bytes_impl<F: Fn(&Vec<String>, Option<&[u8]>) -> CurlRun>(
    h: &mut Heap,
    url: Option<&TaggedStr>,
    body: i64,
    headers: i64,
    curl: &F,
) -> (r: (i64, Option<String>))
    requires
        old(h).wf(),
        old(h).cells@.len() + 2 <= MAX_CELLS,
        forall|a: &Vec<String>, b: Option<&[u8]>| call_requires(*curl, (a, b)),
    ensures
        final(h).wf(),
        final(h).rc_on == old(h).rc_on,
        match bytes_at(old(h).cells@, body) {
            Some(b) => exists|answer: Result<(i64, Vec<u8>), String>, sent: &[u8]|
                sent@ == b.data@ && #[trigger] asked_octets(
                    *curl,
                    "POST"@,
                    text_or_empty(url),
                    Some(sent),
                    headers_at(old(h).cells@, headers),
                    answer,
                ) && hands_octets(old(h).cells@, final(h).cells@, answer, r),
            None => (r.1 matches Some(m) && m@ == "http.post_bytes expects bytes, got "@
                + word_type(old(h).cells@, body)) && octets_reply_at(
                old(h).cells@,
                final(h).cells@,
                r.0,
                0,
                seq![],
            ),
        },
{
    let list = read_headers(h, headers);
    let answer: Result<(i64, Vec<u8>), String> = match post_body(h, body) {
        Ok(sent) => {
            let a = request_bytes("POST", borrow(url), Some(sent), list.as_slice(), curl);
            assert(asked_octets(
                *curl,
                "POST"@,
                text_or_empty(url),
                Some(sent),
                headers_at(old(h).cells@, headers),
                a,
            ));
            a
        },
        Err(m) => Err(m),
    };
    let ghost seen = answer;
    let r = octets_words(h, answer);
    assert(hands_octets(old(h).cells@, h.cells@, seen, r));
    r
}

// ── Laws ─────────────────────────────────────────────────────────────────────

/// The mark is where it is, and nowhere behind.
proof fn mark_is_last(buf: Seq<u8>, i: int, n: int)
    requires
        mark_at(buf, i),
        i <= n,
        forall|j: int| i < j <= n ==> !mark_at(buf, j),
    ensures
        last_mark(buf, n) == i,
    decreases n - i,
{
    if n > i {
        mark_is_last(buf, i, n - 1);
    }
}

/// Whatever the body holds, marks included, a reply splits where the status was
/// appended: the body comes back whole, with the number the digits spell.
pub proof fn replies_split_at_the_status(body: Seq<u8>, digits: Seq<u8>)
    requires
        forall|i: int| 0 <= i < digits.len() ==> is_digit(#[trigger] digits[i]),
        digits_value(digits, digits.len()) <= i64::MAX,
    ensures
        spec_reply(body + MARK@ + digits) == (digits_value(digits, digits.len()), body),
{
    let buf = body + MARK@ + digits;
    let p = body.len() as int;
    assert(MARK@.len() == 13);
    assert(buf.subrange(p, p + 13) =~= MARK@);
    assert(mark_at(buf, p));
    assert forall|j: int| p < j <= buf.len() - 13 implies !mark_at(buf, j) by {
        if mark_at(buf, j) {
            assert(buf.subrange(j, j + 13)[0] == MARK@[0]);
            assert(buf[j] == 10);
            if j < p + 13 {
                assert(buf[j] == MARK@[j - p]);
            } else {
                assert(buf[j] == digits[j - p - 13]);
                assert(is_digit(digits[j - p - 13]));
            }
        }
    }
    mark_is_last(buf, p, buf.len() - 13);
    assert(buf.skip(p + 13) =~= digits);
    assert(buf.take(p) =~= body);
    run_is_digits(digits, digits.len() as int);
}

/// Every header is handed on as an option and its line, name first, in order.
pub proof fn headers_become_arguments(headers: Seq<(Seq<char>, Seq<char>)>, n: nat, i: int)
    requires
        n <= headers.len(),
        0 <= i < n,
    ensures
        header_args(headers, n).len() == 2 * n,
        header_args(headers, n)[2 * i] == "-H"@,
        header_args(headers, n)[2 * i + 1] == headers[i].0 + ": "@ + headers[i].1,
    decreases n,
{
    let m = (n - 1) as nat;
    header_args_len(headers, m);
    if i < m {
        headers_become_arguments(headers, m, i);
    }
}

/// Two arguments for each header.
proof fn header_args_len(headers: Seq<(Seq<char>, Seq<char>)>, n: nat)
    ensures
        header_args(headers, n).len() == 2 * n,
    decreases n,
{
    if n > 0 {
        header_args_len(headers, (n - 1) as nat);
    }
}

/// The arguments begin quietly, name the method, carry the headers and end in the address,
/// which nothing can take for an option. A body is read from the input, and the answer to
/// a `HEAD` is dropped.
pub proof fn arguments_carry_the_request(
    method: Seq<char>,
    url: Seq<char>,
    has_body: bool,
    headers: Seq<(Seq<char>, Seq<char>)>,
)
    ensures
        ({
            let a = spec_args(method, url, has_body, headers);
            let x: int = if method == "HEAD"@ {
                3
            } else {
                1
            };
            let h = x + 2 + 2 * headers.len();
            let e: int = h + if has_body {
                2int
            } else {
                0int
            };
            &&& a.len() == e + 4
            &&& a[0] == "-sS"@
            &&& method == "HEAD"@ ==> a[1] == "-o"@ && a[2] == "/dev/null"@
            &&& a[x] == "-X"@
            &&& a[x + 1] == method
            &&& a.subrange(x + 2, h) == header_args(headers, headers.len())
            &&& has_body ==> a[h] == "--data-binary"@ && a[h + 1] == "@-"@
            &&& a[e] == "-w"@
            &&& a[e + 2] == "--"@
            &&& a[e + 3] == url
        }),
{
    header_args_len(headers, headers.len());
    let a = spec_args(method, url, has_body, headers);
    let x: int = if method == "HEAD"@ {
        3
    } else {
        1
    };
    let h = x + 2 + 2 * headers.len();
    assert(a.subrange(x + 2, h) =~= header_args(headers, headers.len()));
}

/// Without a mark the whole is the body, and there is no status.
pub proof fn unmarked_replies_are_all_body(buf: Seq<u8>)
    requires
        forall|i: int| !mark_at(buf, i),
    ensures
        spec_reply(buf) == (0int, buf),
{
    no_last_mark(buf, buf.len() - 13);
}

/// No mark is the last one.
proof fn no_last_mark(buf: Seq<u8>, n: int)
    requires
        forall|i: int| !mark_at(buf, i),
    ensures
        last_mark(buf, n) == -1,
    decreases n + 1,
{
    if n >= 0 {
        no_last_mark(buf, n - 1);
    }
}

/// One more digit makes ten of the number before it and adds itself.
pub proof fn digits_weigh_by_place(d: Seq<u8>, c: u8)
    requires
        48 <= c <= 57,
    ensures
        digits_value(d.push(c), (d.len() + 1) as nat) == 10 * digits_value(d, d.len()) + (c - 48),
        digits_value(Seq::<u8>::empty(), 0) == 0,
{
    value_of_beginning(d.push(c), d, d.len());
}

/// The value of a beginning is its own.
proof fn value_of_beginning(d: Seq<u8>, e: Seq<u8>, n: nat)
    requires
        n <= e.len() <= d.len(),
        forall|i: int| 0 <= i < e.len() ==> d[i] == e[i],
    ensures
        digits_value(d, n) == digits_value(e, n),
    decreases n,
{
    if n > 0 {
        value_of_beginning(d, e, (n - 1) as nat);
    }
}

/// The reason follows the exit code, and the message names the method, the address, the
/// reason and the code.
pub proof fn reasons_follow_the_code(method: Seq<char>, url: Seq<char>, code: int)
    ensures
        spec_reason(6) == "could not resolve host"@,
        spec_reason(7) == "could not connect to host"@,
        spec_reason(28) == "request timed out"@,
        spec_reason(35) == "TLS handshake failed"@,
        spec_reason(127) == "curl executable not found"@,
        code != 6 && code != 7 && code != 28 && code != 35 && code != 127 ==> spec_reason(code)
            == "request failed"@,
        failure(method, url, code) == "http "@ + method + " '"@ + url + "': "@ + spec_reason(code)
            + " (curl exit "@ + decimal(code) + ")"@,
{
}

/// The headers of a dict are its keys and the texts of its values, in order.
pub proof fn entries_become_headers(cells: Seq<Cell>, d: Seq<(Seq<char>, i64)>, i: int)
    requires
        0 <= i < d.len(),
    ensures
        dict_headers(cells, d).len() == d.len(),
        dict_headers(cells, d)[i].0 == d[i].0,
        dict_headers(cells, d)[i].1 == key_text(cells, d[i].1),
{
}

/// A reply is a dict of the status and the body, the body as what cannot be trusted.
pub proof fn replies_hold_status_and_body(
    before: Seq<Cell>,
    after: Seq<Cell>,
    w: i64,
    status: int,
    text: Seq<char>,
    octets: Seq<u8>,
)
    requires
        -0x4000_0000_0000_0000 <= status <= 0x3fff_ffff_ffff_ffff,
    ensures
        text_reply_at(before, after, w, status, text) ==> (dict_at(after, w) matches Some(d)
            && d@.len() == 2 && d@[0].0 == "status"@ && decode(d@[0].1 as u64) == Val::Int(status)
            && d@[1].0 == "body"@ && (decode(d@[1].1 as u64) matches Val::Str(a) && str_at(after, a)
            == (until_zero(text), TAINTED))),
        octets_reply_at(before, after, w, status, octets) ==> (dict_at(after, w) matches Some(d)
            && d@.len() == 2 && d@[0].0 == "status"@ && decode(d@[0].1 as u64) == Val::Int(status)
            && d@[1].0 == "body"@ && (bytes_at(after, d@[1].1) matches Some(b) && b.data@ == octets
            && b.trust == TAINTED)),
{
}

} // verus!
