//! One exchange with the daemon.
//!
//! A request goes out behind a 4-byte length. The answer is a run of frames up to DONE
//! or ERROR, with a ceiling on its bytes and on its frames: the daemon is a process of
//! its own, and one that streams forever must not hang or exhaust the program.

use vstd::prelude::*;

use super::frame::{done_tokens, le_write, read_frame, text, FrameKind};
use super::InferError;
#[allow(unused_imports)]
use super::frame::{
    encoded, front, le_bytes, le_roundtrip, le_value, reading_undoes_writing, short_read, span, Front,
};
#[allow(unused_imports)]
use super::Failure;
use crate::text::{chars_of, find_char};

verus! {

/// The most bytes one answer may accumulate: 64 MiB.
pub const MAX_RESPONSE_BYTES: usize = 67_108_864;

/// The most frames one answer may have.
pub const MAX_FRAMES: u64 = 4_000_000;

/// How the response body is assembled.
#[derive(Debug, Clone, Copy, PartialEq, Eq, Structural)]
pub enum Mode {
    /// From token frames; structured ones are ignored.
    Tokens,
    /// From structured frames; token frames are ignored.
    Json,
}

impl Mode {
    /// A frame of this kind contributes to the body.
    pub open spec fn spec_accumulates(self, kind: FrameKind) -> bool {
        self is Tokens && kind is Token || self is Json && kind is Json
    }

    /// Whether a frame of this kind contributes to the body. The other kind is read and
    /// dropped.
    pub fn accumulates(self, kind: FrameKind) -> (r: bool)
        ensures
            r == self.spec_accumulates(kind),
    {
        match (self, kind) {
            (Mode::Tokens, FrameKind::Token) => true,
            (Mode::Json, FrameKind::Json) => true,
            _ => false,
        }
    }
}

/// A completed exchange.
#[derive(Debug)]
pub struct Response {
    /// The assembled body.
    pub body: Vec<u8>,
    /// What the daemon counted.
    pub tokens_used: u64,
}

/// Where the daemon listens: the override when it is set and not empty, else
/// `.jade/llm.sock` under the home directory, which is `/root` when not set.
pub open spec fn socket_at(over: Option<Seq<char>>, home: Option<Seq<char>>) -> Seq<char> {
    match over {
        Some(s) if s.len() > 0 => s,
        _ => (match home {
            Some(h) => h,
            None => "/root"@,
        }) + "/.jade/llm.sock"@,
    }
}

/// The view of an optional text.
pub open spec fn opt_text(s: Option<&str>) -> Option<Seq<char>> {
    match s {
        Some(t) => Some(t@),
        None => None,
    }
}

/// The socket path, given the values of `JADE_LLM_SOCK` and `HOME`.
pub fn sock_path(over: Option<&str>, home: Option<&str>) -> (r: String)
    ensures
        r@ == socket_at(opt_text(over), opt_text(home)),
{
    if let Some(s) = over {
        if !s.is_empty() {
            return s.to_owned();
        }
    }
    let mut path = match home {
        Some(h) => h.to_owned(),
        None => "/root".to_owned(),
    };
    path.append("/.jade/llm.sock");
    path
}

/// How long to wait, in milliseconds, before another attempt to connect when attempt
/// number `attempt`, counted from zero, has failed; nothing after the third.
pub fn retry_delay(attempt: u32) -> (r: Option<u64>)
    ensures
        r == if attempt < 2 {
            Some(100u64)
        } else {
            None
        },
{
    if attempt < 2 {
        Some(100)
    } else {
        None
    }
}

/// A request on the wire: its length in 4 bytes, little end first, and its bytes.
pub fn framed_request(req: &[u8]) -> (r: Result<Vec<u8>, InferError>)
    ensures
        match r {
            Ok(w) => req@.len() <= u32::MAX && w@ == le_bytes(req@.len(), 4) + req@,
            Err(e) => req@.len() > u32::MAX && e@ == Failure::RequestTooLarge(req@.len()),
        },
{
    let n: usize = req.len();
    if n as u64 > u32::MAX as u64 {
        return Err(InferError::RequestTooLarge(n));
    }
    let mut out = le_write(n as u64, 4);
    out.extend_from_slice(req);
    Ok(out)
}

/// What an exchange has gathered so far.
pub struct Exchange {
    /// How the body is assembled.
    pub mode: Mode,
    /// The body so far.
    pub body: Vec<u8>,
    /// How many frames were asked for.
    pub frames: u64,
}

/// What to do about a frame.
#[derive(Debug)]
pub enum Step {
    /// Read the next frame.
    Next,
    /// Hand the payload to the token callback, and read the next frame.
    Show,
    /// The answer is complete.
    Done(Response),
    /// The exchange failed.
    Fail(InferError),
}

/// What to do about a frame, as mathematics.
pub enum Move {
    /// Read the next frame.
    Next,
    /// Show the payload, and read the next frame.
    Show,
    /// The answer is complete.
    Done(Seq<u8>, nat),
    /// The exchange failed.
    Fail(Failure),
}

impl View for Step {
    type V = Move;

    open spec fn view(&self) -> Move {
        match *self {
            Step::Next => Move::Next,
            Step::Show => Move::Show,
            Step::Done(r) => Move::Done(r.body@, r.tokens_used as nat),
            Step::Fail(e) => Move::Fail(e@),
        }
    }
}

/// What a frame does to a body, and to the model's name.
pub open spec fn step(
    mode: Mode,
    body: Seq<u8>,
    model: Seq<char>,
    kind: FrameKind,
    payload: Seq<u8>,
) -> (Move, Seq<u8>, Seq<char>) {
    match kind {
        FrameKind::Token | FrameKind::Json => if !mode.spec_accumulates(kind) {
            (Move::Next, body, model)
        } else if body.len() + payload.len() > MAX_RESPONSE_BYTES {
            (Move::Fail(Failure::ResponseTooLarge), body, model)
        } else if kind is Token {
            (Move::Show, body + payload, model)
        } else {
            (Move::Next, body + payload, model)
        },
        FrameKind::Done => if payload.len() == 8 {
            (Move::Done(body, le_value(payload)), body, model)
        } else {
            (
                Move::Fail(Failure::Malformed("DONE payload must be exactly 8 bytes"@)),
                body,
                model,
            )
        },
        FrameKind::Error => if vstd::utf8::valid_utf8(payload) {
            (Move::Fail(Failure::Daemon(vstd::utf8::decode_utf8(payload))), body, model)
        } else {
            (Move::Fail(Failure::InvalidUtf8), body, model)
        },
        FrameKind::Meta => if vstd::utf8::valid_utf8(payload) {
            (Move::Next, body, vstd::utf8::decode_utf8(payload))
        } else {
            (Move::Fail(Failure::InvalidUtf8), body, model)
        },
    }
}

/// How an exchange ends.
pub struct Ending {
    /// The body and the token count, or why it failed.
    pub result: Result<(Seq<u8>, nat), Failure>,
    /// The payloads handed to the token callback, in order.
    pub shown: Seq<Seq<u8>>,
    /// The model's name.
    pub model: Seq<char>,
    /// What is left on the wire.
    pub rest: Seq<u8>,
}

/// How an exchange ends that has asked for `frames` frames and gathered `body`, when
/// `wire` is still to be read.
pub open spec fn ending(
    mode: Mode,
    wire: Seq<u8>,
    frames: nat,
    body: Seq<u8>,
    shown: Seq<Seq<u8>>,
    model: Seq<char>,
) -> Ending
    decreases wire.len(),
{
    if frames >= MAX_FRAMES {
        Ending { result: Err(Failure::FrameLimit), shown, model, rest: wire }
    } else {
        match front(wire) {
            Front::Short => Ending {
                result: Err(Failure::Transport(short_read())),
                shown,
                model,
                rest: seq![],
            },
            Front::Unknown(t, rest) => Ending {
                result: Err(Failure::UnknownFrameType(t)),
                shown,
                model,
                rest,
            },
            Front::Frame(kind, payload, rest) => {
                let (m, b, name) = step(mode, body, model, kind, payload);
                match m {
                    Move::Next => ending(mode, rest, frames + 1, b, shown, name),
                    Move::Show => ending(mode, rest, frames + 1, b, shown.push(payload), name),
                    Move::Done(r, n) => Ending { result: Ok((r, n)), shown, model: name, rest },
                    Move::Fail(e) => Ending { result: Err(e), shown, model: name, rest },
                }
            },
        }
    }
}

/// The result of an exchange, as mathematics.
pub open spec fn result_view(r: Result<Response, InferError>) -> Result<(Seq<u8>, nat), Failure> {
    match r {
        Ok(x) => Ok((x.body@, x.tokens_used as nat)),
        Err(e) => Err(e@),
    }
}

impl Exchange {
    /// An exchange that has read nothing.
    pub fn new(mode: Mode) -> (x: Self)
        ensures
            x.mode == mode,
            x.body@.len() == 0,
            x.frames == 0,
    {
        Exchange { mode, body: Vec::new(), frames: 0 }
    }

    /// Ask for one more frame; refused past the ceiling.
    pub fn next_frame(&mut self) -> (r: Result<(), InferError>)
        ensures
            final(self).mode == old(self).mode,
            final(self).body == old(self).body,
            match r {
                Ok(_) => old(self).frames < MAX_FRAMES && final(self).frames == old(self).frames
                    + 1,
                Err(e) => old(self).frames >= MAX_FRAMES && e@ == Failure::FrameLimit
                    && final(self).frames == old(self).frames,
            },
    {
        if self.frames >= MAX_FRAMES {
            return Err(InferError::FrameLimit);
        }
        self.frames = self.frames + 1;
        Ok(())
    }
}

/// A connection to the daemon: whether the socket is open, where it is, and the model
/// the daemon last reported.
pub struct Conn {
    /// The socket is open.
    pub open: bool,
    /// What the daemon reported it is serving.
    pub model: String,
    /// The socket's path.
    pub at: String,
}

impl Conn {
    /// A connection to `path`, not opened yet.
    pub fn new(path: String) -> (c: Self)
        ensures
            !c.open,
            c.model@.len() == 0,
            c.at == path,
    {
        Conn { open: false, model: String::new(), at: path }
    }

    /// The model the daemon last reported; empty before any.
    pub fn reported_model(&self) -> (r: String)
        ensures
            r@ == self.model@,
    {
        self.model.clone()
    }

    /// The socket's path.
    pub fn path(&self) -> (r: &str)
        ensures
            r@ == self.at@,
    {
        self.at.as_str()
    }

    /// Close the socket. The next request reconnects.
    pub fn shutdown(&mut self)
        ensures
            !final(self).open,
            final(self).model == old(self).model,
            final(self).at == old(self).at,
    {
        self.open = false;
    }

    /// Take one frame into an exchange.
    pub fn accept(&mut self, x: &mut Exchange, kind: FrameKind, payload: &[u8]) -> (r: Step)
        requires
            old(x).body@.len() <= MAX_RESPONSE_BYTES,
        ensures
            (r@, final(x).body@, final(self).model@) == step(
                old(x).mode,
                old(x).body@,
                old(self).model@,
                kind,
                payload@,
            ),
            final(x).body@.len() <= MAX_RESPONSE_BYTES,
            final(x).mode == old(x).mode,
            final(x).frames == old(x).frames,
            final(self).open == old(self).open,
            final(self).at == old(self).at,
    {
        match kind {
            FrameKind::Token | FrameKind::Json => {
                if !x.mode.accumulates(kind) {
                    return Step::Next;
                }
                if payload.len() > MAX_RESPONSE_BYTES - x.body.len() {
                    return Step::Fail(InferError::ResponseTooLarge);
                }
                let ghost before = x.body@;
                x.body.extend_from_slice(payload);
                assert(x.body@ =~= before + payload@);
                if kind == FrameKind::Token {
                    Step::Show
                } else {
                    Step::Next
                }
            },
            FrameKind::Done => match done_tokens(payload) {
                Ok(n) => {
                    let mut body: Vec<u8> = Vec::new();
                    body.extend_from_slice(x.body.as_slice());
                    assert(body@ =~= x.body@);
                    Step::Done(Response { body, tokens_used: n })
                },
                Err(e) => Step::Fail(e),
            },
            FrameKind::Error => match text(payload) {
                Ok(s) => Step::Fail(InferError::Daemon(s)),
                Err(e) => Step::Fail(e),
            },
            FrameKind::Meta => match text(payload) {
                Ok(s) => {
                    self.model = s;
                    Step::Next
                },
                Err(e) => Step::Fail(e),
            },
        }
    }

    /// Read a whole answer from the front of `r`: the response, and the payloads to show
    /// as they came.
    pub fn exchange(&mut self, r: &mut &[u8], mode: Mode) -> (res: (
        Result<Response, InferError>,
        Vec<Vec<u8>>,
    ))
        ensures
            ({
                let e = ending(mode, old(r)@, 0, seq![], seq![], old(self).model@);
                &&& result_view(res.0) == e.result
                &&& res.1@.map_values(|v: Vec<u8>| v@) == e.shown
                &&& final(self).model@ == e.model
                &&& final(r)@ == e.rest
            }),
            final(self).open == old(self).open,
            final(self).at == old(self).at,
    {
        let mut x = Exchange::new(mode);
        let mut shown: Vec<Vec<u8>> = Vec::new();
        let mut payload: Vec<u8> = Vec::new();
        let ghost e = ending(mode, r@, 0, seq![], seq![], self.model@);
        assert(x.body@ =~= seq![]);
        assert(shown@.map_values(|v: Vec<u8>| v@) =~= seq![]);
        loop
            invariant
                x.mode == mode,
                x.body@.len() <= MAX_RESPONSE_BYTES,
                self.open == old(self).open,
                self.at == old(self).at,
                e == ending(mode, old(r)@, 0, seq![], seq![], old(self).model@),
                e == ending(
                    mode,
                    r@,
                    x.frames as nat,
                    x.body@,
                    shown@.map_values(|v: Vec<u8>| v@),
                    self.model@,
                ),
            decreases r@.len(),
        {
            if let Err(err) = x.next_frame() {
                return (Err(err), shown);
            }
            let kind = match read_frame(r, &mut payload) {
                Ok(k) => k,
                Err(err) => {
                    return (Err(err), shown);
                },
            };
            let ghost before = shown@;
            match self.accept(&mut x, kind, payload.as_slice()) {
                Step::Next => {},
                Step::Show => {
                    let mut copy: Vec<u8> = Vec::new();
                    copy.extend_from_slice(payload.as_slice());
                    assert(copy@ =~= payload@);
                    shown.push(copy);
                    assert(shown@.map_values(|v: Vec<u8>| v@) =~= before.map_values(
                        |v: Vec<u8>| v@,
                    ).push(payload@));
                },
                Step::Done(resp) => {
                    return (Ok(resp), shown);
                },
                Step::Fail(err) => {
                    return (Err(err), shown);
                },
            }
        }
    }

    /// An exchange came to its end. One that failed closes the socket, so that the next
    /// request starts clean rather than reading this one's tail as its answer.
    pub fn settle(&mut self, res: Result<Response, InferError>) -> (r: Result<
        Response,
        InferError,
    >)
        ensures
            r == res,
            final(self).open == (res is Ok),
            final(self).model == old(self).model,
            final(self).at == old(self).at,
    {
        self.open = res.is_ok();
        res
    }

    /// A request whose answer is `reply`. A failed exchange closes the socket, so that
    /// the next request starts clean rather than reading this one's tail as its answer.
    pub fn request(&mut self, reply: &[u8], mode: Mode) -> (res: (
        Result<Response, InferError>,
        Vec<Vec<u8>>,
    ))
        ensures
            ({
                let e = ending(mode, reply@, 0, seq![], seq![], old(self).model@);
                &&& result_view(res.0) == e.result
                &&& res.1@.map_values(|v: Vec<u8>| v@) == e.shown
                &&& final(self).model@ == e.model
                &&& final(self).open == (e.result is Ok)
            }),
            final(self).at == old(self).at,
    {
        let mut r: &[u8] = reply;
        let (res, shown) = self.exchange(&mut r, mode);
        (self.settle(res), shown)
    }
}

/// The bytes with a zero behind them, for a caller that wants a terminated buffer.
pub fn to_c_buffer(bytes: &[u8]) -> (r: Vec<u8>)
    ensures
        r@ == bytes@.push(0),
{
    let mut out: Vec<u8> = Vec::new();
    out.extend_from_slice(bytes);
    assert(out@ =~= bytes@);
    out.push(0);
    out
}

/// The model's name for a caller that wants a terminated text: a name that holds a zero
/// is no name.
pub fn terminated_name(model: &str) -> (r: String)
    ensures
        r@ == if model@.contains('\0') {
            seq![]
        } else {
            model@
        },
{
    let v = chars_of(model);
    match find_char(v.as_slice(), '\0') {
        Some(i) => {
            assert(model@[i as int] == '\0');
            String::new()
        },
        None => model.to_owned(),
    }
}

// ── Laws ─────────────────────────────────────────────────────────────────────

/// No answer is ever partial or over the ceiling: a body handed back is at most
/// [`MAX_RESPONSE_BYTES`] long.
pub proof fn answers_are_bounded(
    mode: Mode,
    wire: Seq<u8>,
    frames: nat,
    body: Seq<u8>,
    shown: Seq<Seq<u8>>,
    model: Seq<char>,
)
    requires
        body.len() <= MAX_RESPONSE_BYTES,
    ensures
        ending(mode, wire, frames, body, shown, model).result matches Ok(r) ==> r.0.len()
            <= MAX_RESPONSE_BYTES,
    decreases wire.len(),
{
    if frames < MAX_FRAMES {
        if let Front::Frame(kind, payload, rest) = front(wire) {
            let (m, b, name) = step(mode, body, model, kind, payload);
            match m {
                Move::Next => answers_are_bounded(mode, rest, frames + 1, b, shown, name),
                Move::Show => answers_are_bounded(
                    mode,
                    rest,
                    frames + 1,
                    b,
                    shown.push(payload),
                    name,
                ),
                _ => {},
            }
        }
    }
}

/// The payloads one after the other.
pub open spec fn joined_bytes(s: Seq<Seq<u8>>) -> Seq<u8>
    decreases s.len(),
{
    if s.len() == 0 {
        seq![]
    } else {
        joined_bytes(s.drop_last()) + s.last()
    }
}

/// In token mode the body is exactly what was shown, in order: a caller that streams
/// the tokens has seen the whole answer.
pub proof fn shown_tokens_are_the_body(
    wire: Seq<u8>,
    frames: nat,
    body: Seq<u8>,
    shown: Seq<Seq<u8>>,
    model: Seq<char>,
)
    requires
        body == joined_bytes(shown),
    ensures
        ({
            let e = ending(Mode::Tokens, wire, frames, body, shown, model);
            e.result matches Ok(r) ==> r.0 == joined_bytes(e.shown)
        }),
    decreases wire.len(),
{
    if frames < MAX_FRAMES {
        if let Front::Frame(kind, payload, rest) = front(wire) {
            let (m, b, name) = step(Mode::Tokens, body, model, kind, payload);
            match m {
                Move::Next => shown_tokens_are_the_body(rest, frames + 1, b, shown, name),
                Move::Show => {
                    assert(shown.push(payload).drop_last() =~= shown);
                    shown_tokens_are_the_body(rest, frames + 1, b, shown.push(payload), name);
                },
                _ => {},
            }
        }
    }
}

/// The socket is the one given, and else the one below the home directory.
pub proof fn the_socket_lies_below_home(s: Seq<char>, h: Seq<char>)
    ensures
        s.len() > 0 ==> socket_at(Some(s), Some(h)) == s && socket_at(Some(s), None) == s,
        socket_at(None, Some(h)) == h + "/.jade/llm.sock"@,
        socket_at(Some(Seq::empty()), Some(h)) == h + "/.jade/llm.sock"@,
        socket_at(None, None) == "/root"@ + "/.jade/llm.sock"@,
{
}

/// A frame of the kind that is asked for adds its payload to the body, and a token is shown;
/// one of the other kind is passed over, and the model's name is taken down.
pub proof fn frames_build_the_answer(
    mode: Mode,
    kind: FrameKind,
    payload: Seq<u8>,
    rest: Seq<u8>,
    frames: nat,
    body: Seq<u8>,
    shown: Seq<Seq<u8>>,
    model: Seq<char>,
)
    requires
        payload.len() < 0x1_0000,
        frames < MAX_FRAMES,
        body.len() + payload.len() <= MAX_RESPONSE_BYTES,
    ensures
        ({
            let e = ending(mode, encoded(kind, payload) + rest, frames, body, shown, model);
            &&& mode is Tokens && kind is Token ==> e == ending(
                mode,
                rest,
                frames + 1,
                body + payload,
                shown.push(payload),
                model,
            )
            &&& mode is Json && kind is Json ==> e == ending(
                mode,
                rest,
                frames + 1,
                body + payload,
                shown,
                model,
            )
            &&& mode is Tokens && kind is Json || mode is Json && kind is Token ==> e == ending(
                mode,
                rest,
                frames + 1,
                body,
                shown,
                model,
            )
            &&& kind is Meta && vstd::utf8::valid_utf8(payload) ==> e == ending(
                mode,
                rest,
                frames + 1,
                body,
                shown,
                vstd::utf8::decode_utf8(payload),
            )
        }),
{
    reading_undoes_writing(kind, payload, rest);
}

/// The last frame ends the answer: with the body as it stands and the count it carries, or
/// with the error it spells. What follows is left on the wire.
pub proof fn the_last_frame_ends_the_answer(
    mode: Mode,
    tokens: nat,
    message: Seq<char>,
    rest: Seq<u8>,
    frames: nat,
    body: Seq<u8>,
    shown: Seq<Seq<u8>>,
    model: Seq<char>,
)
    requires
        tokens < span(8),
        vstd::utf8::encode_utf8(message).len() < 0x1_0000,
        frames < MAX_FRAMES,
    ensures
        ending(
            mode,
            encoded(FrameKind::Done, le_bytes(tokens, 8)) + rest,
            frames,
            body,
            shown,
            model,
        ) == (Ending { result: Ok((body, tokens)), shown, model, rest }),
        ending(
            mode,
            encoded(FrameKind::Error, vstd::utf8::encode_utf8(message)) + rest,
            frames,
            body,
            shown,
            model,
        ) == (Ending { result: Err(Failure::Daemon(message)), shown, model, rest }),
{
    le_roundtrip(tokens, 8);
    reading_undoes_writing(FrameKind::Done, le_bytes(tokens, 8), rest);
    let p = vstd::utf8::encode_utf8(message);
    reading_undoes_writing(FrameKind::Error, p, rest);
    crate::bytesf::decode_undoes_encode(message);
}

/// An answer over its ceiling fails: one frame more than allowed, or one octet more.
pub proof fn ceilings_end_the_answer(
    mode: Mode,
    payload: Seq<u8>,
    rest: Seq<u8>,
    frames: nat,
    body: Seq<u8>,
    shown: Seq<Seq<u8>>,
    model: Seq<char>,
)
    requires
        payload.len() < 0x1_0000,
    ensures
        frames >= MAX_FRAMES ==> ending(mode, rest, frames, body, shown, model).result == Err::<
            (Seq<u8>, nat),
            Failure,
        >(Failure::FrameLimit),
        frames < MAX_FRAMES && mode is Tokens && body.len() + payload.len() > MAX_RESPONSE_BYTES
            ==> ending(
            mode,
            encoded(FrameKind::Token, payload) + rest,
            frames,
            body,
            shown,
            model,
        ).result == Err::<(Seq<u8>, nat), Failure>(Failure::ResponseTooLarge),
        frames < MAX_FRAMES && rest.len() < 3 ==> ending(
            mode,
            rest,
            frames,
            body,
            shown,
            model,
        ).result == Err::<(Seq<u8>, nat), Failure>(Failure::Transport(short_read())),
{
    reading_undoes_writing(FrameKind::Token, payload, rest);
}

} // verus!
