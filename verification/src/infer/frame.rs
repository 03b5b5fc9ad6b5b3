//! Response frames.
//!
//! ```text
//! [1 byte: type][2 bytes, little end first: length][the payload]
//!
//! 1 TOKEN   UTF-8 token text
//! 2 DONE    8 bytes, little end first: tokens used
//! 3 ERROR   UTF-8 message
//! 4 META    UTF-8 model name
//! 5 JSON    UTF-8 structured payload
//! ```

use vstd::prelude::*;

use super::InferError;
#[allow(unused_imports)]
use super::Failure;
use crate::bytesf::utf8_text;

verus! {

/// The tag of a token frame.
pub const TYPE_TOKEN: u8 = 0x01;

/// The tag of the last frame of an answer.
pub const TYPE_DONE: u8 = 0x02;

/// The tag of an error frame.
pub const TYPE_ERROR: u8 = 0x03;

/// The tag of a frame that names the model.
pub const TYPE_META: u8 = 0x04;

/// The tag of a structured payload.
pub const TYPE_JSON: u8 = 0x05;

/// Which frame arrived.
#[derive(Debug, Clone, Copy, PartialEq, Eq, Structural)]
pub enum FrameKind {
    /// Token text.
    Token,
    /// The end of an answer.
    Done,
    /// An error message.
    Error,
    /// The model's name.
    Meta,
    /// A structured payload.
    Json,
}

/// The tag of a kind of frame.
pub open spec fn tag_of(k: FrameKind) -> u8 {
    match k {
        FrameKind::Token => TYPE_TOKEN,
        FrameKind::Done => TYPE_DONE,
        FrameKind::Error => TYPE_ERROR,
        FrameKind::Meta => TYPE_META,
        FrameKind::Json => TYPE_JSON,
    }
}

/// The kind of frame a tag announces.
pub open spec fn kind_of(tag: u8) -> Option<FrameKind> {
    if tag == TYPE_TOKEN {
        Some(FrameKind::Token)
    } else if tag == TYPE_DONE {
        Some(FrameKind::Done)
    } else if tag == TYPE_ERROR {
        Some(FrameKind::Error)
    } else if tag == TYPE_META {
        Some(FrameKind::Meta)
    } else if tag == TYPE_JSON {
        Some(FrameKind::Json)
    } else {
        None
    }
}

impl FrameKind {
    /// The kind of frame a tag announces.
    pub fn from_tag(tag: u8) -> (r: Option<Self>)
        ensures
            r == kind_of(tag),
    {
        if tag == TYPE_TOKEN {
            Some(FrameKind::Token)
        } else if tag == TYPE_DONE {
            Some(FrameKind::Done)
        } else if tag == TYPE_ERROR {
            Some(FrameKind::Error)
        } else if tag == TYPE_META {
            Some(FrameKind::Meta)
        } else if tag == TYPE_JSON {
            Some(FrameKind::Json)
        } else {
            None
        }
    }
}

// ── Numbers on the wire ──────────────────────────────────────────────────────

/// The number whose bytes are `b`, little end first.
pub open spec fn le_value(b: Seq<u8>) -> nat
    decreases b.len(),
{
    if b.len() == 0 {
        0
    } else {
        (b[0] + 256 * le_value(b.skip(1))) as nat
    }
}

/// The `k` low bytes of `n`, little end first.
pub open spec fn le_bytes(n: nat, k: nat) -> Seq<u8>
    decreases k,
{
    if k == 0 {
        seq![]
    } else {
        seq![(n % 256) as u8] + le_bytes(n / 256, (k - 1) as nat)
    }
}

/// How many numbers `k` bytes hold.
pub open spec fn span(k: nat) -> nat
    decreases k,
{
    if k == 0 {
        1
    } else {
        256 * span((k - 1) as nat)
    }
}

/// A number of `k` bytes is below the span.
proof fn le_value_bounded(b: Seq<u8>)
    ensures
        le_value(b) < span(b.len()),
    decreases b.len(),
{
    if b.len() > 0 {
        le_value_bounded(b.skip(1));
    }
}

/// What eight bytes hold, and two.
proof fn spans()
    ensures
        span(2) == 0x1_0000,
        span(8) == 0x1_0000_0000_0000_0000,
{
    reveal_with_fuel(span, 9);
}

/// Fewer bytes hold no more numbers.
proof fn span_grows(j: nat, k: nat)
    requires
        j <= k,
    ensures
        1 <= span(j) <= span(k),
    decreases k,
{
    if j < k {
        span_grows(j, (k - 1) as nat);
    } else if k > 0 {
        span_grows((k - 1) as nat, (k - 1) as nat);
    }
}

/// Writing a number and reading it back gives the number.
pub proof fn le_roundtrip(n: nat, k: nat)
    requires
        n < span(k),
    ensures
        le_bytes(n, k).len() == k,
        le_value(le_bytes(n, k)) == n,
    decreases k,
{
    if k > 0 {
        le_roundtrip(n / 256, (k - 1) as nat);
        assert(le_bytes(n, k).skip(1) =~= le_bytes(n / 256, (k - 1) as nat));
    }
}

/// The number in up to eight bytes.
pub fn le_number(b: &[u8]) -> (n: u64)
    requires
        b@.len() <= 8,
    ensures
        n == le_value(b@),
{
    let mut acc: u64 = 0;
    let mut i: usize = b.len();
    assert(b@.skip(i as int) =~= seq![]);
    while i > 0
        invariant
            i <= b@.len() <= 8,
            acc == le_value(b@.skip(i as int)),
        decreases i,
    {
        let ghost tail = b@.skip(i - 1);
        proof {
            assert(tail.skip(1) =~= b@.skip(i as int));
            le_value_bounded(tail);
            span_grows(tail.len(), 8);
            spans();
        }
        i -= 1;
        acc = acc * 256 + b[i] as u64;
    }
    assert(b@.skip(0) =~= b@);
    acc
}

/// The `k` low bytes of a number, little end first.
pub fn le_write(n: u64, k: usize) -> (r: Vec<u8>)
    ensures
        r@ == le_bytes(n as nat, k as nat),
{
    let mut out: Vec<u8> = Vec::new();
    let mut rest: u64 = n;
    let mut i: usize = 0;
    assert(seq![] + le_bytes(n as nat, k as nat) =~= le_bytes(n as nat, k as nat));
    while i < k
        invariant
            i <= k,
            out@ + le_bytes(rest as nat, (k - i) as nat) == le_bytes(n as nat, k as nat),
        decreases k - i,
    {
        let ghost before = out@;
        out.push((rest % 256) as u8);
        assert(before + (seq![(rest as nat % 256) as u8] + le_bytes(
            rest as nat / 256,
            (k - i - 1) as nat,
        )) =~= out@ + le_bytes(rest as nat / 256, (k - i - 1) as nat));
        rest = rest / 256;
        i += 1;
    }
    assert(out@ + seq![] =~= out@);
    out
}

// ── Frames ───────────────────────────────────────────────────────────────────

/// A frame on the wire.
pub open spec fn encoded(kind: FrameKind, payload: Seq<u8>) -> Seq<u8> {
    seq![tag_of(kind)] + le_bytes(payload.len(), 2) + payload
}

/// What stands at the front of the wire.
pub enum Front {
    /// A whole frame, and what is left behind it.
    Frame(FrameKind, Seq<u8>, Seq<u8>),
    /// A header whose tag is not known, and what is left behind it.
    Unknown(u8, Seq<u8>),
    /// Less than a frame.
    Short,
}

/// What stands at the front of the wire.
pub open spec fn front(wire: Seq<u8>) -> Front {
    if wire.len() < 3 {
        Front::Short
    } else {
        let n = le_value(wire.subrange(1, 3)) as int;
        match kind_of(wire[0]) {
            None => Front::Unknown(wire[0], wire.skip(3)),
            Some(k) => if wire.len() < 3 + n {
                Front::Short
            } else {
                Front::Frame(k, wire.subrange(3, 3 + n), wire.skip(3 + n))
            },
        }
    }
}

/// What a read past the end of the wire is reported as.
pub open spec fn short_read() -> Seq<char> {
    "failed to fill whole buffer"@
}

/// What a frame header announces: the kind, and the payload's length.
pub fn read_header(tag: u8, low: u8, high: u8) -> (r: Result<(FrameKind, usize), InferError>)
    ensures
        match r {
            Ok((k, n)) => kind_of(tag) == Some(k) && n == low + 256 * high,
            Err(e) => e@ == Failure::UnknownFrameType(tag) && kind_of(tag) is None,
        },
{
    match FrameKind::from_tag(tag) {
        Some(k) => Ok((k, low as usize + 256 * high as usize)),
        None => Err(InferError::UnknownFrameType(tag)),
    }
}

/// Read exactly one frame from the front of `r`, leaving its payload, and nothing else,
/// in `payload`, which is cleared first. A tag that is not known is refused rather than
/// skipped: the stream is out of step. When the wire ends early it is used up.
pub fn read_frame(r: &mut &[u8], payload: &mut Vec<u8>) -> (res: Result<FrameKind, InferError>)
    ensures
        match front(old(r)@) {
            Front::Frame(k, p, rest) => res matches Ok(kind) && kind == k && final(payload)@ == p
                && final(r)@ == rest,
            Front::Unknown(t, rest) => res matches Err(e) && e@ == Failure::UnknownFrameType(t)
                && final(payload)@ == Seq::<u8>::empty() && final(r)@ == rest,
            Front::Short => res matches Err(e) && e@ == Failure::Transport(short_read())
                && final(payload)@ == Seq::<u8>::empty() && final(r)@ == Seq::<u8>::empty(),
        },
{
    payload.clear();
    assert(payload@ =~= Seq::<u8>::empty());
    let wire: &[u8] = *r;
    let n: usize = wire.len();
    if n < 3 {
        *r = vstd::slice::slice_subrange(wire, n, n);
        assert(r@ =~= Seq::<u8>::empty());
        return Err(InferError::Transport("failed to fill whole buffer".to_owned()));
    }
    let (kind, len) = match read_header(wire[0], wire[1], wire[2]) {
        Ok(h) => h,
        Err(e) => {
            *r = vstd::slice::slice_subrange(wire, 3, n);
            assert(r@ =~= wire@.skip(3));
            return Err(e);
        },
    };
    proof {
        reveal_with_fuel(le_value, 3);
        let h = wire@.subrange(1, 3);
        assert(h.skip(1).skip(1) =~= seq![]);
        assert(le_value(h) == len);
    }
    if n - 3 < len {
        *r = vstd::slice::slice_subrange(wire, n, n);
        assert(r@ =~= Seq::<u8>::empty());
        return Err(InferError::Transport("failed to fill whole buffer".to_owned()));
    }
    let body = vstd::slice::slice_subrange(wire, 3, 3 + len);
    payload.extend_from_slice(body);
    assert(payload@ =~= wire@.subrange(3, 3 + len));
    *r = vstd::slice::slice_subrange(wire, 3 + len, n);
    assert(r@ =~= wire@.skip(3 + len));
    Ok(kind)
}

/// The number of tokens a DONE payload states; it has exactly 8 bytes.
pub fn done_tokens(payload: &[u8]) -> (r: Result<u64, InferError>)
    ensures
        match r {
            Ok(n) => payload@.len() == 8 && n == le_value(payload@),
            Err(e) => payload@.len() != 8 && e@ == Failure::Malformed(
                "DONE payload must be exactly 8 bytes"@,
            ),
        },
{
    if payload.len() != 8 {
        return Err(InferError::Malformed("DONE payload must be exactly 8 bytes".to_owned()));
    }
    Ok(le_number(payload))
}

/// A payload as text.
pub fn text(payload: &[u8]) -> (r: Result<String, InferError>)
    ensures
        match r {
            Ok(s) => vstd::utf8::valid_utf8(payload@) && s@ == vstd::utf8::decode_utf8(payload@),
            Err(e) => !vstd::utf8::valid_utf8(payload@) && e@ == Failure::InvalidUtf8,
        },
{
    match utf8_text(payload) {
        Ok(s) => Ok(s),
        Err(_) => Err(InferError::InvalidUtf8),
    }
}

/// A frame that was written is read back whole, and what follows it is left.
pub proof fn reading_undoes_writing(kind: FrameKind, payload: Seq<u8>, rest: Seq<u8>)
    requires
        payload.len() < 0x1_0000,
    ensures
        front(encoded(kind, payload) + rest) == Front::Frame(kind, payload, rest),
{
    let wire = encoded(kind, payload) + rest;
    spans();
    le_roundtrip(payload.len(), 2);
    assert(wire[0] == tag_of(kind));
    assert(wire.subrange(1, 3) =~= le_bytes(payload.len(), 2));
    assert(wire.subrange(3, 3int + payload.len()) =~= payload);
    assert(wire.skip(3int + payload.len()) =~= rest);
}

/// Every kind has a tag of its own, and the tag tells the kind.
pub proof fn tags_tell_the_kind(k: FrameKind, tag: u8)
    ensures
        kind_of(tag_of(k)) == Some(k),
        kind_of(tag) matches Some(j) ==> tag_of(j) == tag,
{
}

/// A frame is its tag, its length with the low octet first, and its payload.
pub proof fn frames_spell_their_length(kind: FrameKind, payload: Seq<u8>)
    requires
        payload.len() < 0x1_0000,
    ensures
        encoded(kind, payload).len() == 3 + payload.len(),
        encoded(kind, payload)[0] == tag_of(kind),
        encoded(kind, payload)[1] == payload.len() % 256,
        encoded(kind, payload)[2] == payload.len() / 256,
        encoded(kind, payload).skip(3) == payload,
{
    reveal_with_fuel(le_bytes, 3);
    assert(le_bytes(payload.len(), 2) =~= seq![
        (payload.len() % 256) as u8,
        (payload.len() / 256) as u8,
    ]);
    assert(encoded(kind, payload).skip(3) =~= payload);
}

/// What is too short for its header, or for the length it gives, is no frame yet.
pub proof fn cut_frames_are_short(kind: FrameKind, payload: Seq<u8>, n: int)
    requires
        payload.len() < 0x1_0000,
        0 <= n < 3 + payload.len(),
    ensures
        front(encoded(kind, payload).take(n)) == Front::Short,
{
    frames_spell_their_length(kind, payload);
    let wire = encoded(kind, payload).take(n);
    if n >= 3 {
        let b = wire.subrange(1, 3);
        reveal_with_fuel(le_value, 3);
        assert(b[0] == payload.len() % 256);
        assert(b.skip(1)[0] == payload.len() / 256);
        assert(b.skip(1).skip(1).len() == 0);
        assert(le_value(b.skip(1)) == payload.len() / 256);
        assert(wire[0] == tag_of(kind));
    }
}

} // verus!
