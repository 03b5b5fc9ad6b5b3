//! The inference daemon client: the protocol, without the socket.
//!
//! * [`frame`]: response frames on the wire.
//! * [`conn`]: one exchange, from the request's length prefix to the complete answer.
//!
//! The socket itself belongs to the caller, who hands over what it read.

pub mod conn;
pub mod frame;

use vstd::prelude::*;

use crate::text::{digits_of, string_of};
#[allow(unused_imports)]
use crate::text::decimal_nat;

pub use conn::{sock_path, Mode, Response};

verus! {

/// Why an exchange with the daemon failed.
#[derive(Debug)]
pub enum InferError {
    /// The socket could not be opened after retries.
    Connect {
        /// The socket's path.
        path: String,
        /// What the last attempt failed with.
        source: String,
    },
    /// A read or write failed, a daemon that hung up among them.
    Transport(String),
    /// The daemon answered with an error; its message.
    Daemon(String),
    /// A frame tag that is not known: the stream is out of step.
    UnknownFrameType(u8),
    /// A frame's payload had not the shape its type requires.
    Malformed(String),
    /// A text frame's payload was not UTF-8.
    InvalidUtf8,
    /// The daemon streamed past the ceiling on bytes.
    ResponseTooLarge,
    /// The daemon streamed past the ceiling on frames.
    FrameLimit,
    /// The request did not fit its length prefix.
    RequestTooLarge(usize),
}

/// A failure, as mathematics.
pub enum Failure {
    /// The socket could not be opened.
    Connect(Seq<char>, Seq<char>),
    /// A read or write failed.
    Transport(Seq<char>),
    /// The daemon answered with an error.
    Daemon(Seq<char>),
    /// A frame tag that is not known.
    UnknownFrameType(u8),
    /// A payload of the wrong shape.
    Malformed(Seq<char>),
    /// A payload that is not UTF-8.
    InvalidUtf8,
    /// Too many bytes.
    ResponseTooLarge,
    /// Too many frames.
    FrameLimit,
    /// A request that is too long.
    RequestTooLarge(nat),
}

impl View for InferError {
    type V = Failure;

    open spec fn view(&self) -> Failure {
        match *self {
            InferError::Connect { path, source } => Failure::Connect(path@, source@),
            InferError::Transport(s) => Failure::Transport(s@),
            InferError::Daemon(s) => Failure::Daemon(s@),
            InferError::UnknownFrameType(t) => Failure::UnknownFrameType(t),
            InferError::Malformed(s) => Failure::Malformed(s@),
            InferError::InvalidUtf8 => Failure::InvalidUtf8,
            InferError::ResponseTooLarge => Failure::ResponseTooLarge,
            InferError::FrameLimit => Failure::FrameLimit,
            InferError::RequestTooLarge(n) => Failure::RequestTooLarge(n as nat),
        }
    }
}

/// A hexadecimal digit, in lowercase.
pub open spec fn hex_digit(d: int) -> char {
    if d < 10 {
        (48 + d) as char
    } else {
        (87 + d) as char
    }
}

/// What a failure is reported as.
pub open spec fn failure_text(e: Failure) -> Seq<char> {
    match e {
        Failure::Connect(path, source) => "cannot connect to inference daemon at "@ + path
            + " — is jaded running? ("@ + source + ")"@,
        Failure::Transport(s) => "inference daemon connection failed: "@ + s,
        Failure::Daemon(s) => "inference error from the daemon: "@ + s,
        Failure::UnknownFrameType(t) => "unknown frame type 0x"@ + seq![
            hex_digit(t as int / 16),
            hex_digit(t as int % 16),
        ] + " from the daemon"@,
        Failure::Malformed(s) => "malformed frame from the daemon: "@ + s,
        Failure::InvalidUtf8 => "the daemon sent invalid UTF-8 in a text frame"@,
        Failure::ResponseTooLarge => "daemon response exceeded the size limit"@,
        Failure::FrameLimit => "daemon response exceeded the frame limit"@,
        Failure::RequestTooLarge(n) => "request body of "@ + decimal_nat(n)
            + " bytes is too large to frame"@,
    }
}

/// A hexadecimal digit.
fn hex(d: u8) -> (c: char)
    requires
        d < 16,
    ensures
        c == hex_digit(d as int),
{
    if d < 10 {
        (48u8 + d) as char
    } else {
        (87u8 + d) as char
    }
}

impl InferError {
    /// What the failure is reported as.
    pub fn text(&self) -> (r: String)
        ensures
            r@ == failure_text(self@),
    {
        match self {
            InferError::Connect { path, source } => {
                let mut s = "cannot connect to inference daemon at ".to_owned();
                s.append(path.as_str());
                s.append(" — is jaded running? (");
                s.append(source.as_str());
                s.append(")");
                s
            },
            InferError::Transport(e) => {
                let mut s = "inference daemon connection failed: ".to_owned();
                s.append(e.as_str());
                s
            },
            InferError::Daemon(e) => {
                let mut s = "inference error from the daemon: ".to_owned();
                s.append(e.as_str());
                s
            },
            InferError::UnknownFrameType(t) => {
                let mut s = "unknown frame type 0x".to_owned();
                let ghost head = s@;
                s.push(hex(*t / 16));
                s.push(hex(*t % 16));
                assert(s@ =~= head + seq![hex_digit(*t as int / 16), hex_digit(*t as int % 16)]);
                s.append(" from the daemon");
                s
            },
            InferError::Malformed(e) => {
                let mut s = "malformed frame from the daemon: ".to_owned();
                s.append(e.as_str());
                s
            },
            InferError::InvalidUtf8 => "the daemon sent invalid UTF-8 in a text frame".to_owned(),
            InferError::ResponseTooLarge => "daemon response exceeded the size limit".to_owned(),
            InferError::FrameLimit => "daemon response exceeded the frame limit".to_owned(),
            InferError::RequestTooLarge(n) => {
                let mut s = "request body of ".to_owned();
                let d = digits_of(*n as u64);
                s.append(string_of(d.as_slice()).as_str());
                s.append(" bytes is too large to frame");
                s
            },
        }
    }
}

/// Hexadecimal digits go on from nine to small letters.
pub proof fn hex_digits_go_on_to_letters(d: int)
    requires
        0 <= d < 16,
    ensures
        d < 10 ==> (hex_digit(d) as int) == '0' as int + d,
        d >= 10 ==> (hex_digit(d) as int) == 'a' as int + (d - 10),
{
}

} // verus!
