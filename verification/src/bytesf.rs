//! Binary blobs.
//!
//! A `bytes` value is a counted sequence of octets with a trust tag. It is not a
//! string: it may hold zero bytes and need not be valid UTF-8. Conversion is
//! explicit in both directions.

use vstd::prelude::*;

use crate::heap::{ObjHeader, ObjKind};
#[allow(unused_imports)]
use crate::heap::spec_kind_byte;
use crate::text::{int_text, nat_text};
#[allow(unused_imports)]
use crate::text::{decimal, decimal_nat};
use crate::cstr::borrow;
use crate::ffi_coll::cell_index;
use crate::gc::Heap;
use crate::obj::{Cell, Obj};
use crate::ops::string_at;
use crate::string::{trust_of, TaggedStr};
use crate::trust::{combine, TRUSTED};
use crate::value::JadeValue;
#[allow(unused_imports)]
use crate::cstr::{emits, text_or_empty, trust_or_trusted};
#[allow(unused_imports)]
use crate::ffi_coll::{array_at, object_at, only_changes, word_stands_for};
#[allow(unused_imports)]
use crate::gc::{edit_keeps_cells, points_at, word_roundtrip, MAX_CELLS};
#[allow(unused_imports)]
use crate::ops::str_at;
#[allow(unused_imports)]
use crate::strf::sliced;
#[allow(unused_imports)]
use crate::value::Val;
#[allow(unused_imports)]
use crate::trust::{combine_is_stricter, spec_combine};
#[allow(unused_imports)]
use crate::gc::fresh_from;
#[allow(unused_imports)]
use crate::ffi_coll::text_cell;

verus! {

/// A blob: a header, a trust tag, and its octets.
pub struct BytesObj {
    /// The object header.
    pub header: ObjHeader,
    /// Where the octets came from; not part of the blob's identity.
    pub trust: u8,
    /// The octets.
    pub data: Vec<u8>,
}

/// The longest blob: its length must fit the header.
pub const MAX_LEN: usize = 0xffff_ffff;

impl BytesObj {
    /// The header agrees with the payload.
    pub open spec fn wf(&self) -> bool {
        &&& self.header.kind == spec_kind_byte(ObjKind::Bytes)
        &&& self.header.len == self.data@.len() as u32
    }

    /// A blob of the given octets and trust.
    pub fn new(data: Vec<u8>, trust: u8) -> (b: Self)
        ensures
            b.data == data,
            b.trust == trust,
            b.wf(),
            b.header.fresh(ObjKind::Bytes),
    {
        let len: usize = data.len();
        BytesObj { header: ObjHeader::new(ObjKind::Bytes, len as u32), trust, data }
    }

    /// A blob the program itself built.
    pub fn trusted(data: Vec<u8>) -> (b: Self)
        ensures
            b.data == data,
            b.trust == TRUSTED,
            b.wf(),
            b.header.fresh(ObjKind::Bytes),
    {
        BytesObj::new(data, TRUSTED)
    }

    /// The number of octets.
    pub fn len(&self) -> (n: usize)
        ensures
            n == self.data@.len(),
    {
        self.data.len()
    }

    /// Whether there are no octets.
    pub fn is_empty(&self) -> (r: bool)
        ensures
            r == (self.data@.len() == 0),
    {
        self.data.len() == 0
    }

    /// The octets.
    pub fn as_slice(&self) -> (r: &[u8])
        ensures
            r@ == self.data@,
    {
        self.data.as_slice()
    }

    /// Whether the octets came from outside.
    pub fn is_tainted(&self) -> (r: bool)
        ensures
            r == (self.trust != TRUSTED),
    {
        crate::trust::is_tainted(self.trust)
    }

    /// Whether two blobs hold the same octets; trust is not part of it.
    pub fn same_octets(&self, other: &BytesObj) -> (r: bool)
        ensures
            r == (self.data@ == other.data@),
    {
        if self.data.len() != other.data.len() {
            return false;
        }
        let mut i: usize = 0;
        while i < self.data.len()
            invariant
                i <= self.data@.len(),
                self.data@.len() == other.data@.len(),
                forall|j: int| 0 <= j < i ==> self.data@[j] == other.data@[j],
            decreases self.data@.len() - i,
        {
            if self.data[i] != other.data[i] {
                return false;
            }
            i += 1;
        }
        assert(self.data@ =~= other.data@);
        true
    }
}

impl PartialEq for BytesObj {
    fn eq(&self, other: &Self) -> (r: bool) {
        self.same_octets(other)
    }
}

impl vstd::std_specs::cmp::PartialEqSpecImpl for BytesObj {
    open spec fn obeys_eq_spec() -> bool {
        true
    }

    open spec fn eq_spec(&self, other: &BytesObj) -> bool {
        self.data@ == other.data@
    }
}

impl Eq for BytesObj {

}

// ── Construction ─────────────────────────────────────────────────────────────

/// Append the decimal text of `i`.
fn put_int(s: &mut String, i: i64)
    ensures
        final(s)@ == old(s)@ + decimal(i as int),
{
    let d = int_text(i);
    s.append(d.as_str());
}

/// Append the decimal text of `n`.
fn put_nat(s: &mut String, n: u64)
    ensures
        final(s)@ == old(s)@ + decimal_nat(n as nat),
{
    let d = nat_text(n);
    s.append(d.as_str());
}

/// Why there are no `n` zeroed octets, given whether the memory could be had; nothing
/// when there are.
pub open spec fn zeros_refusal(n: int, reserved: bool) -> Option<Seq<char>> {
    if n < 0 {
        Some("bytes.zeros(): length cannot be negative, got "@ + decimal(n))
    } else if n > MAX_LEN {
        Some(
            "bytes.zeros(): length "@ + decimal_nat(n as nat)
                + " is past the 4294967295 octet limit"@,
        )
    } else if !reserved {
        Some("bytes.zeros(): cannot allocate "@ + decimal_nat(n as nat) + " octets"@)
    } else {
        None
    }
}

/// What asking for `n` zeroed octets comes to, given whether the memory could be had.
pub open spec fn zeros_result(n: int, reserved: bool, r: Result<Seq<u8>, Seq<char>>) -> bool {
    match zeros_refusal(n, reserved) {
        Some(m) => r == Err::<Seq<u8>, Seq<char>>(m),
        None => r == Ok::<Seq<u8>, Seq<char>>(Seq::new(n as nat, |i: int| 0u8)),
    }
}

/// The view of octets or a message.
pub open spec fn octets_view(r: Result<Vec<u8>, String>) -> Result<Seq<u8>, Seq<char>> {
    match r {
        Ok(v) => Ok(v@),
        Err(m) => Err(m@),
    }
}

/// `n` zeroed octets in `room`, the buffer that was reserved for them, or why there are
/// none. Without a buffer the memory could not be had.
pub fn zeros_in(n: i64, room: Option<Vec<u8>>) -> (r: Result<Vec<u8>, String>)
    ensures
        zeros_result(n as int, room is Some, octets_view(r)),
{
    if n < 0 {
        let mut s = "bytes.zeros(): length cannot be negative, got ".to_owned();
        put_int(&mut s, n);
        return Err(s);
    }
    if n as u64 > MAX_LEN as u64 {
        let mut s = "bytes.zeros(): length ".to_owned();
        put_nat(&mut s, n as u64);
        s.append(" is past the 4294967295 octet limit");
        return Err(s);
    }
    match room {
        Some(mut data) => {
            data.clear();
            data.resize(n as usize, 0);
            assert(data@ =~= Seq::new(n as nat, |i: int| 0u8));
            Ok(data)
        },
        None => {
            let mut s = "bytes.zeros(): cannot allocate ".to_owned();
            put_nat(&mut s, n as u64);
            s.append(" octets");
            Err(s)
        },
    }
}

/// The reservation of `n` octets may answer that the memory is there, or that it is not.
pub open spec fn reserves<R: Fn(usize) -> Option<Vec<u8>>>(
    reserve: R,
    n: usize,
    there: bool,
) -> bool {
    exists|room: Option<Vec<u8>>| #[trigger]
        call_ensures(reserve, (n,), room) && there == (room is Some)
}

/// What reserving `n` octets and zeroing them comes to: success where the reservation
/// of exactly that many succeeds.
pub open spec fn zeros_reserved<R: Fn(usize) -> Option<Vec<u8>>>(
    reserve: R,
    n: int,
    r: Result<Seq<u8>, Seq<char>>,
) -> bool {
    ||| reserves(reserve, n as usize, true) && zeros_result(n, true, r)
    ||| reserves(reserve, n as usize, false) && zeros_result(n, false, r)
}

/// `n` zeroed octets, in a buffer from `reserve`. The length is checked first: nothing is
/// asked for where it is refused, and otherwise room for exactly `n` octets is.
pub fn zeros_from<R: Fn(usize) -> Option<Vec<u8>>>(n: i64, reserve: &R) -> (r: Result<
    Vec<u8>,
    String,
>)
    requires
        0 <= n <= MAX_LEN ==> call_requires(*reserve, (n as usize,)),
    ensures
        if 0 <= n <= MAX_LEN {
            zeros_reserved(*reserve, n as int, octets_view(r))
        } else {
            zeros_result(n as int, false, octets_view(r))
        },
{
    if n < 0 || n as u64 > MAX_LEN as u64 {
        return zeros_in(n, None);
    }
    let room: Option<Vec<u8>> = reserve(n as usize);
    let ghost there = room is Some;
    assert(reserves(*reserve, n as usize, there));
    zeros_in(n, room)
}

/// An empty buffer with room for `n` octets; nothing when the machine has none. No octets
/// need no memory.
pub fn reserve(n: usize) -> (r: Option<Vec<u8>>)
    ensures
        r matches Some(v) ==> v@.len() == 0,
        n == 0 ==> r is Some,
{
    let mut data: Vec<u8> = Vec::new();
    if n == 0 || data.try_reserve(n).is_ok() {
        Some(data)
    } else {
        None
    }
}

/// `bytes.zeros(n)`: `n` zeroed octets. The length is checked before anything is
/// allocated. Whether the memory for a length above zero can be had rests with the
/// machine.
pub fn zeros(n: i64) -> (r: Result<Vec<u8>, String>)
    ensures
        zeros_result(n as int, true, octets_view(r)) || zeros_result(
            n as int,
            false,
            octets_view(r),
        ),
        n == 0 ==> r is Ok,
{
    zeros_from(n, &reserve)
}

/// One element of a `bytes.from_ints` array, range-checked.
pub fn octet(index: usize, value: i64) -> (r: Result<u8, String>)
    ensures
        0 <= value <= 255 ==> r == Ok::<u8, String>(value as u8),
        !(0 <= value <= 255) ==> r is Err && r->Err_0@ == "bytes.from_ints(): element "@
            + decimal_nat(index as nat) + " is "@ + decimal(value as int)
            + ", which is not an octet in 0 to 255"@,
{
    if 0 <= value && value <= 255 {
        return Ok(value as u8);
    }
    let mut s = "bytes.from_ints(): element ".to_owned();
    put_nat(&mut s, index as u64);
    s.append(" is ");
    put_int(&mut s, value);
    s.append(", which is not an octet in 0 to 255");
    Err(s)
}

/// The message for a `bytes.from_ints` element that is not an integer.
pub fn non_int_element(index: usize) -> (s: String)
    ensures
        s@ == "bytes.from_ints(): element "@ + decimal_nat(index as nat) + " is not an int"@,
{
    let mut s = "bytes.from_ints(): element ".to_owned();
    put_nat(&mut s, index as u64);
    s.append(" is not an int");
    s
}

/// The message for `bytes.from_ints` of something other than an array.
pub fn not_an_array() -> (s: String)
    ensures
        s@ == "bytes.from_ints(): expected an array of ints"@,
{
    "bytes.from_ints(): expected an array of ints".to_owned()
}

/// The text of an index past the end of `len` octets.
pub open spec fn out_of_range_text(index: int, len: nat) -> Seq<char> {
    "index "@ + decimal(index) + " out of bounds (length "@ + decimal_nat(len) + ")"@
}

/// The message for an octet written past the end of a blob.
pub fn index_out_of_range(index: i64, len: usize) -> (s: String)
    ensures
        s@ == out_of_range_text(index as int, len as nat),
{
    let mut s = "index ".to_owned();
    put_int(&mut s, index);
    s.append(" out of bounds (length ");
    put_nat(&mut s, len as u64);
    s.append(")");
    s
}

/// The message for a value written into a blob that is not an octet.
pub fn value_out_of_range(value: i64) -> (s: String)
    ensures
        s@ == "a bytes element is an octet in 0 to 255, got "@ + decimal(value as int),
{
    let mut s = "a bytes element is an octet in 0 to 255, got ".to_owned();
    put_int(&mut s, value);
    s
}

/// The trust of a joined blob: the stricter of its two inputs.
pub fn concat_trust(a: u8, b: u8) -> (r: u8)
    ensures
        r == spec_combine(a, b),
{
    combine(a, b)
}

/// The length of a joined blob, or why it cannot be built.
pub fn joined_len(a: usize, b: usize) -> (r: Result<usize, String>)
    requires
        a + b <= u64::MAX,
    ensures
        a + b <= MAX_LEN ==> r == Ok::<usize, String>((a + b) as usize),
        a + b > MAX_LEN ==> r is Err && r->Err_0@ == "bytes.concat(): the result would be "@
            + decimal_nat((a + b) as nat) + " octets, past the 4294967295 octet limit"@,
{
    let total: u64 = a as u64 + b as u64;
    if total > MAX_LEN as u64 {
        let mut s = "bytes.concat(): the result would be ".to_owned();
        put_nat(&mut s, total);
        s.append(" octets, past the 4294967295 octet limit");
        return Err(s);
    }
    Ok(total as usize)
}

/// `bytes.concat(a, b)`: the octets of `a`, then those of `b`, in a fresh blob.
pub fn concat(a: &BytesObj, b: &BytesObj) -> (r: Result<BytesObj, String>)
    requires
        a.data@.len() + b.data@.len() <= u64::MAX,
    ensures
        r is Ok <==> a.data@.len() + b.data@.len() <= MAX_LEN,
        r is Ok ==> {
            &&& r->Ok_0.data@ == a.data@ + b.data@
            &&& r->Ok_0.trust == spec_combine(a.trust, b.trust)
            &&& r->Ok_0.wf()
            &&& r->Ok_0.header.len == r->Ok_0.data@.len()
            &&& r->Ok_0.header.fresh(ObjKind::Bytes)
        },
        r is Err ==> r->Err_0@ == "bytes.concat(): the result would be "@ + decimal_nat(
            a.data@.len() + b.data@.len(),
        ) + " octets, past the 4294967295 octet limit"@,
{
    match joined_len(a.data.len(), b.data.len()) {
        Ok(_) => {},
        Err(e) => {
            return Err(e);
        },
    }
    let mut data: Vec<u8> = Vec::new();
    data.extend_from_slice(a.data.as_slice());
    data.extend_from_slice(b.data.as_slice());
    assert(data@ =~= a.data@ + b.data@);
    Ok(BytesObj::new(data, concat_trust(a.trust, b.trust)))
}

/// Write one octet, or say why it could not be written. A refused write changes
/// nothing.
pub fn set(b: &mut BytesObj, index: i64, value: i64) -> (r: Result<(), String>)
    ensures
        r is Ok <==> 0 <= index < old(b).data@.len() && 0 <= value <= 255,
        r is Ok ==> final(b).data@ == old(b).data@.update(index as int, value as u8),
        r is Err ==> final(b).data@ == old(b).data@,
        !(0 <= index < old(b).data@.len()) ==> r is Err && r->Err_0@ == out_of_range_text(
            index as int,
            old(b).data@.len(),
        ),
        0 <= index < old(b).data@.len() && !(0 <= value <= 255) ==> r is Err && r->Err_0@
            == "a bytes element is an octet in 0 to 255, got "@ + decimal(value as int),
        final(b).header == old(b).header,
        final(b).trust == old(b).trust,
{
    let len: usize = b.data.len();
    if index < 0 || index as u64 >= len as u64 {
        return Err(index_out_of_range(index, len));
    }
    if value < 0 || value > 255 {
        return Err(value_out_of_range(value));
    }
    b.data.set(index as usize, value as u8);
    Ok(())
}

// ── Reading ──────────────────────────────────────────────────────────────────

/// The octet at `i` as an integer, or -1 when there is none.
pub fn get(b: &BytesObj, i: i64) -> (r: i64)
    ensures
        r == (if 0 <= i < b.data@.len() {
            b.data@[i as int] as int
        } else {
            -1int
        }),
{
    if i < 0 || i as u64 >= b.data.len() as u64 {
        return -1;
    }
    b.data[i as usize] as i64
}

/// `i` moved into `lo..=hi`.
pub open spec fn clamp(i: int, lo: int, hi: int) -> int {
    if i < lo {
        lo
    } else if i > hi {
        hi
    } else {
        i
    }
}

/// The octets from `start` up to `end`, both clamped.
pub open spec fn octets_between(data: Seq<u8>, start: int, end: int) -> Seq<u8> {
    let n = data.len() as int;
    let s = clamp(start, 0, n);
    data.subrange(s, clamp(end, s, n))
}

/// `b.slice(start, end)`: the octets from `start` up to `end`, both clamped, with
/// the blob's trust.
pub fn slice(b: &BytesObj, start: i64, end: i64) -> (r: BytesObj)
    ensures
        r.data@ == octets_between(b.data@, start as int, end as int),
        r.trust == b.trust,
        r.wf(),
        r.header.fresh(ObjKind::Bytes),
{
    let n: i128 = b.data.len() as i128;
    let start: i128 = start as i128;
    let end: i128 = end as i128;
    let s: i128 = if start < 0 {
        0
    } else if start > n {
        n
    } else {
        start
    };
    let e: i128 = if end < s {
        s
    } else if end > n {
        n
    } else {
        end
    };
    let mut data: Vec<u8> = Vec::new();
    let lo: usize = s as usize;
    let hi: usize = e as usize;
    let mut i: usize = lo;
    while i < hi
        invariant
            lo <= i <= hi <= b.data@.len(),
            data@ == b.data@.subrange(lo as int, i as int),
        decreases hi - i,
    {
        data.push(b.data[i]);
        i += 1;
        assert(b.data@.subrange(lo as int, i as int) =~= b.data@.subrange(lo as int, i - 1).push(
            b.data@[i - 1],
        ));
    }
    BytesObj::new(data, b.trust)
}

// ── Text ─────────────────────────────────────────────────────────────────────

/// `s.encode()`: the UTF-8 octets of a text; its trust travels with them.
pub fn encode(s: &str, trust: u8) -> (b: BytesObj)
    ensures
        b.data@ == vstd::utf8::encode_utf8(s@),
        b.trust == trust,
        b.wf(),
        b.header.fresh(ObjKind::Bytes),
{
    let mut data: Vec<u8> = Vec::new();
    data.extend_from_slice(s.as_bytes());
    assert(data@ =~= vstd::utf8::encode_utf8(s@));
    BytesObj::new(data, trust)
}

/// `n` is the length of the longest prefix of `bytes` that is valid UTF-8.
pub open spec fn valid_up_to(bytes: Seq<u8>, n: int) -> bool {
    &&& 0 <= n <= bytes.len()
    &&& vstd::utf8::valid_utf8(bytes.take(n))
    &&& forall|m: int| n < m <= bytes.len() ==> !vstd::utf8::valid_utf8(#[trigger] bytes.take(m))
}

/// `core::str::from_utf8` answers the text of valid UTF-8, and otherwise says how
/// many leading bytes are valid.
#[verifier::external_body]
pub(crate) fn utf8_text(bytes: &[u8]) -> (r: Result<String, usize>)
    ensures
        match r {
            Ok(s) => vstd::utf8::valid_utf8(bytes@) && s@ == vstd::utf8::decode_utf8(bytes@),
            Err(n) => !vstd::utf8::valid_utf8(bytes@) && valid_up_to(bytes@, n as int),
        },
{
    match core::str::from_utf8(bytes) {
        Ok(s) => Ok(s.to_owned()),
        Err(e) => Err(e.valid_up_to()),
    }
}

/// `b.decode()`: the octets as text, or where they stop being valid UTF-8.
pub fn decode(b: &BytesObj) -> (r: Result<String, String>)
    ensures
        r is Ok <==> vstd::utf8::valid_utf8(b.data@),
        r is Ok ==> r->Ok_0@ == vstd::utf8::decode_utf8(b.data@),
        r is Err ==> exists|n: int| #[trigger]
            valid_up_to(b.data@, n) && r->Err_0@ == "bytes.decode(): not valid UTF-8 at byte "@
                + decimal_nat(n as nat),
{
    match utf8_text(b.data.as_slice()) {
        Ok(s) => Ok(s),
        Err(n) => {
            let mut s = "bytes.decode(): not valid UTF-8 at byte ".to_owned();
            put_nat(&mut s, n as u64);
            assert(valid_up_to(b.data@, n as int));
            Err(s)
        },
    }
}

// ── Words in and out ─────────────────────────────────────────────────────────

/// The blob a word points at.
pub open spec fn bytes_at(cells: Seq<Cell>, w: i64) -> Option<BytesObj> {
    match object_at(cells, w) {
        Some(Obj::Bytes(b)) => Some(b),
        _ => None,
    }
}

/// A word of a new blob of the given octets and trust.
pub open spec fn new_blob(
    before: Seq<Cell>,
    after: Seq<Cell>,
    w: i64,
    data: Seq<u8>,
    trust: u8,
) -> bool {
    &&& after.len() == before.len() + 1
    &&& after.drop_last() == before
    &&& points_at(w) == before.len()
    &&& after.last() matches Cell::Obj(Obj::Bytes(b)) && b.data@ == data && b.trust == trust
        && b.header.fresh(ObjKind::Bytes) && b.wf()
}

/// The element is an octet.
pub open spec fn is_octet(w: i64) -> bool {
    crate::value::decode(w as u64) matches Val::Int(v) && 0 <= v <= 255
}

/// What is said of an element that is no octet.
pub open spec fn element_error(i: int, w: i64) -> Seq<char> {
    match crate::value::decode(w as u64) {
        Val::Int(v) => "bytes.from_ints(): element "@ + decimal_nat(i as nat) + " is "@ + decimal(v)
            + ", which is not an octet in 0 to 255"@,
        _ => "bytes.from_ints(): element "@ + decimal_nat(i as nat) + " is not an int"@,
    }
}

/// The first element that is no octet is `i`.
pub open spec fn first_bad(ws: Seq<i64>, i: int) -> bool {
    &&& 0 <= i < ws.len()
    &&& !is_octet(ws[i])
    &&& forall|k: int| 0 <= k < i ==> is_octet(#[trigger] ws[k])
}

/// The text says of the first element that is no octet what is wrong with it.
pub open spec fn refused(ws: Seq<i64>, text: Seq<char>) -> bool {
    exists|i: int| #[trigger] first_bad(ws, i) && text == element_error(i, ws[i])
}

/// The octets that words stand for.
pub open spec fn stand_for_octets(ws: Seq<i64>, data: Seq<u8>) -> bool {
    &&& data.len() == ws.len()
    &&& forall|i: int|
        0 <= i < ws.len() ==> crate::value::decode(ws[i] as u64) == Val::Int(
            #[trigger] data[i] as int,
        )
}

/// The octets that words stand for; the first that stands for none is an error.
pub fn octets_of(ws: &[i64]) -> (r: Result<Vec<u8>, String>)
    ensures
        (exists|i: int| #[trigger] first_bad(ws@, i)) ==> r is Err,
        r matches Err(m) ==> refused(ws@, m@),
        r matches Ok(v) ==> stand_for_octets(ws@, v@),
{
    let mut data: Vec<u8> = Vec::new();
    let mut i: usize = 0;
    while i < ws.len()
        invariant
            i <= ws@.len(),
            data@.len() == i,
            forall|k: int| 0 <= k < i ==> is_octet(#[trigger] ws@[k]),
            forall|k: int|
                0 <= k < i ==> crate::value::decode(ws@[k] as u64) == Val::Int(
                    #[trigger] data@[k] as int,
                ),
        decreases ws@.len() - i,
    {
        let v = JadeValue::from_word(ws[i]);
        if !v.is_int() {
            assert(first_bad(ws@, i as int));
            return Err(non_int_element(i));
        }
        match octet(i, v.as_int()) {
            Ok(b) => {
                data.push(b);
            },
            Err(m) => {
                assert(first_bad(ws@, i as int));
                return Err(m);
            },
        }
        i += 1;
    }
    assert forall|k: int| !#[trigger] first_bad(ws@, k) by {
        if 0 <= k < ws@.len() {
            assert(is_octet(ws@[k]));
        }
    }
    Ok(data)
}

/// `bytes.from_ints(arr)`: a new blob of the octets of an array. Anything but an array
/// is an error, and so is the first element that is no octet.
pub fn jrt_bytes_from_ints(h: &mut Heap, arr: i64) -> (r: Result<i64, String>)
    requires
        old(h).wf(),
        old(h).cells@.len() < MAX_CELLS,
    ensures
        final(h).wf(),
        final(h).rc_on == old(h).rc_on,
        r is Err ==> final(h).cells@ == old(h).cells@,
        match array_at(old(h).cells@, arr) {
            None => r matches Err(m) && m@ == "bytes.from_ints(): expected an array of ints"@,
            Some(a) => {
                &&& (exists|i: int| #[trigger] first_bad(a@, i)) ==> r is Err
                &&& r matches Err(m) ==> refused(a@, m@)
                &&& r matches Ok(w) ==> {
                    &&& points_at(w) == old(h).cells@.len()
                    &&& final(h).cells@.drop_last() == old(h).cells@
                    &&& final(h).cells@.last() matches Cell::Obj(Obj::Bytes(b)) && b.trust
                        == TRUSTED && b.header.fresh(ObjKind::Bytes) && b.wf() && stand_for_octets(a@, b.data@)
                }
            },
        },
{
    let data: Vec<u8> = match h.object(arr) {
        Some(Obj::Array(a)) => match octets_of(a.as_slice()) {
            Ok(v) => v,
            Err(m) => {
                return Err(m);
            },
        },
        _ => {
            return Err(not_an_array());
        },
    };
    let w: i64 = h.leak_obj(Obj::Bytes(BytesObj::trusted(data)));
    assert(h.cells@.drop_last() =~= old(h).cells@);
    Ok(w)
}

/// `x.slice(start, end)` of a text or a blob: a new value of the same kind and trust.
/// Anything else is nil.
pub fn jrt_slice_any(h: &mut Heap, word: i64, start: i64, end: i64) -> (w: i64)
    requires
        old(h).wf(),
        old(h).cells@.len() < MAX_CELLS,
    ensures
        final(h).wf(),
        final(h).rc_on == old(h).rc_on,
        match crate::value::decode(word as u64) {
            Val::Str(a) => {
                let (t, trust) = str_at(old(h).cells@, a);
                &&& final(h).cells@.len() == old(h).cells@.len() + 1
                &&& final(h).cells@.drop_last() == old(h).cells@
                &&& text_cell(w) == old(h).cells@.len()
                &&& fresh_from(final(h).cells@, old(h).cells@.len() as int)
                &&& word_stands_for(
                    final(h).cells@,
                    w,
                    sliced(t, start as int, end as int),
                    trust,
                )
            },
            _ => match object_at(old(h).cells@, word) {
                Some(Obj::Bytes(b)) => new_blob(
                    old(h).cells@,
                    final(h).cells@,
                    w,
                    octets_between(b.data@, start as int, end as int),
                    b.trust,
                ),
                _ => final(h).cells@ == old(h).cells@ && crate::value::decode(w as u64) == Val::Nil,
            },
        },
{
    let v = JadeValue::from_word(word);
    if v.is_str() {
        let out: TaggedStr = match string_at(h, v.as_ptr()) {
            Some(s) => TaggedStr::dup(crate::strf::slice(s.text.as_str(), start, end), s.trust),
            None => TaggedStr::dup(crate::strf::slice("", start, end), TRUSTED),
        };
        proof {
            reveal_strlit("");
            assert(""@ =~= Seq::<char>::empty());
        }
        let w: i64 = h.new_str(out);
        assert(h.cells@.drop_last() =~= old(h).cells@);
        return w;
    }
    let part: Option<BytesObj> = match h.object(word) {
        Some(Obj::Bytes(b)) => Some(slice(b, start, end)),
        _ => None,
    };
    match part {
        Some(b) => {
            let w: i64 = h.leak_obj(Obj::Bytes(b));
            assert(h.cells@.drop_last() =~= old(h).cells@);
            w
        },
        None => {
            let v = JadeValue::nil();
            proof {
                word_roundtrip(v.bits);
            }
            v.word()
        },
    }
}

/// A new blob of the given octets and trust.
pub fn jrt_bytes_new(h: &mut Heap, src: &[u8], trust: u8) -> (w: i64)
    requires
        old(h).wf(),
        old(h).cells@.len() < MAX_CELLS,
    ensures
        final(h).wf(),
        final(h).rc_on == old(h).rc_on,
        new_blob(old(h).cells@, final(h).cells@, w, src@, trust),
{
    let mut data: Vec<u8> = Vec::new();
    data.extend_from_slice(src);
    assert(data@ =~= src@);
    let w: i64 = h.leak_obj(Obj::Bytes(BytesObj::new(data, trust)));
    assert(h.cells@.drop_last() =~= old(h).cells@);
    w
}

/// How many octets a blob has.
pub fn jrt_bytes_len(h: &Heap, w: i64) -> (n: i64)
    requires
        bytes_at(h.cells@, w) matches Some(b) && b.data@.len() <= i64::MAX,
    ensures
        n == bytes_at(h.cells@, w)->Some_0.data@.len(),
{
    match h.object(w) {
        Some(Obj::Bytes(b)) => b.len() as i64,
        _ => 0,
    }
}

/// The octet at an index, or -1 outside the blob.
pub fn jrt_bytes_get(h: &Heap, w: i64, i: i64) -> (r: i64)
    requires
        bytes_at(h.cells@, w) is Some,
    ensures
        r == (if 0 <= i < bytes_at(h.cells@, w)->Some_0.data@.len() {
            bytes_at(h.cells@, w)->Some_0.data@[i as int] as int
        } else {
            -1int
        }),
{
    match h.object(w) {
        Some(Obj::Bytes(b)) => get(b, i),
        _ => -1,
    }
}

/// The trust of a blob.
pub fn jrt_bytes_trust(h: &Heap, w: i64) -> (t: u8)
    requires
        bytes_at(h.cells@, w) is Some,
    ensures
        t == bytes_at(h.cells@, w)->Some_0.trust,
{
    match h.object(w) {
        Some(Obj::Bytes(b)) => b.trust,
        _ => TRUSTED,
    }
}

/// A new blob of the octets of a string, with its trust. An absent string has none.
pub fn jrt_bytes_encode(h: &mut Heap, s: Option<&TaggedStr>) -> (w: i64)
    requires
        old(h).wf(),
        old(h).cells@.len() < MAX_CELLS,
    ensures
        final(h).wf(),
        final(h).rc_on == old(h).rc_on,
        new_blob(
            old(h).cells@,
            final(h).cells@,
            w,
            vstd::utf8::encode_utf8(text_or_empty(s)),
            trust_or_trusted(s),
        ),
{
    let b = encode(borrow(s), trust_of(s));
    let w: i64 = h.leak_obj(Obj::Bytes(b));
    assert(h.cells@.drop_last() =~= old(h).cells@);
    w
}

/// The text of a blob, with its trust, or why it is no text.
pub fn jrt_bytes_decode(h: &Heap, w: i64) -> (r: Result<TaggedStr, String>)
    requires
        bytes_at(h.cells@, w) is Some,
    ensures
        ({
            let b = bytes_at(h.cells@, w)->Some_0;
            &&& r is Ok <==> vstd::utf8::valid_utf8(b.data@)
            &&& r matches Ok(s) ==> emits(s, vstd::utf8::decode_utf8(b.data@), b.trust)
            &&& r matches Err(m) ==> exists|n: int| #[trigger]
                valid_up_to(b.data@, n) && m@ == "bytes.decode(): not valid UTF-8 at byte "@
                    + decimal_nat(n as nat)
        }),
{
    match h.object(w) {
        Some(Obj::Bytes(b)) => match decode(b) {
            Ok(s) => Ok(TaggedStr::new(s, b.trust)),
            Err(m) => Err(m),
        },
        _ => Ok(TaggedStr::dup("", TRUSTED)),
    }
}

/// A new blob of the octets between two indices, with its trust.
pub fn jrt_bytes_slice(h: &mut Heap, w: i64, start: i64, end: i64) -> (r: i64)
    requires
        old(h).wf(),
        old(h).cells@.len() < MAX_CELLS,
        bytes_at(old(h).cells@, w) is Some,
    ensures
        final(h).wf(),
        final(h).rc_on == old(h).rc_on,
        new_blob(
            old(h).cells@,
            final(h).cells@,
            r,
            octets_between(bytes_at(old(h).cells@, w)->Some_0.data@, start as int, end as int),
            bytes_at(old(h).cells@, w)->Some_0.trust,
        ),
{
    let part: BytesObj = match h.object(w) {
        Some(Obj::Bytes(b)) => slice(b, start, end),
        _ => BytesObj::trusted(Vec::new()),
    };
    let r: i64 = h.leak_obj(Obj::Bytes(part));
    assert(h.cells@.drop_last() =~= old(h).cells@);
    r
}

/// What asking for a new blob of `n` zeros comes to, given whether the memory could be
/// had: a trusted blob, or the refusal and nothing changed.
pub open spec fn zeros_blob(
    before: Seq<Cell>,
    after: Seq<Cell>,
    n: int,
    reserved: bool,
    r: Result<i64, String>,
) -> bool {
    match zeros_refusal(n, reserved) {
        Some(m) => r matches Err(e) && e@ == m && after == before,
        None => r matches Ok(w) && new_blob(
            before,
            after,
            w,
            Seq::new(n as nat, |i: int| 0u8),
            TRUSTED,
        ),
    }
}

/// A new trusted blob of `n` zeros in a buffer from `reserve`, or why there is none. Room
/// for exactly `n` octets is asked for, and nothing where the length is refused.
pub fn jrt_bytes_zeros_from<R: Fn(usize) -> Option<Vec<u8>>>(
    h: &mut Heap,
    n: i64,
    reserve: &R,
) -> (r: Result<i64, String>)
    requires
        old(h).wf(),
        old(h).cells@.len() < MAX_CELLS,
        0 <= n <= MAX_LEN ==> call_requires(*reserve, (n as usize,)),
    ensures
        final(h).wf(),
        final(h).rc_on == old(h).rc_on,
        if 0 <= n <= MAX_LEN {
            ||| reserves(*reserve, n as usize, true) && zeros_blob(
                old(h).cells@,
                final(h).cells@,
                n as int,
                true,
                r,
            )
            ||| reserves(*reserve, n as usize, false) && zeros_blob(
                old(h).cells@,
                final(h).cells@,
                n as int,
                false,
                r,
            )
        } else {
            zeros_blob(old(h).cells@, final(h).cells@, n as int, false, r)
        },
{
    match zeros_from(n, reserve) {
        Ok(data) => {
            let w: i64 = h.leak_obj(Obj::Bytes(BytesObj::trusted(data)));
            assert(h.cells@.drop_last() =~= old(h).cells@);
            Ok(w)
        },
        Err(m) => Err(m),
    }
}

/// A new trusted blob of `n` zeros, or why there is none.
pub fn jrt_bytes_zeros(h: &mut Heap, n: i64) -> (r: Result<i64, String>)
    requires
        old(h).wf(),
        old(h).cells@.len() < MAX_CELLS,
    ensures
        final(h).wf(),
        final(h).rc_on == old(h).rc_on,
        zeros_blob(old(h).cells@, final(h).cells@, n as int, true, r) || zeros_blob(
            old(h).cells@,
            final(h).cells@,
            n as int,
            false,
            r,
        ),
        n == 0 ==> r is Ok,
{
    jrt_bytes_zeros_from(h, n, &reserve)
}

/// A new blob of two joined, or why there is none.
pub fn jrt_bytes_concat(h: &mut Heap, a: i64, b: i64) -> (r: Result<i64, String>)
    requires
        old(h).wf(),
        old(h).cells@.len() < MAX_CELLS,
        bytes_at(old(h).cells@, a) is Some,
        bytes_at(old(h).cells@, b) is Some,
        bytes_at(old(h).cells@, a)->Some_0.data@.len() + bytes_at(
            old(h).cells@,
            b,
        )->Some_0.data@.len() <= u64::MAX,
    ensures
        final(h).wf(),
        final(h).rc_on == old(h).rc_on,
        ({
            let x = bytes_at(old(h).cells@, a)->Some_0;
            let y = bytes_at(old(h).cells@, b)->Some_0;
            &&& r is Ok <==> x.data@.len() + y.data@.len() <= MAX_LEN
            &&& r matches Ok(w) ==> new_blob(
                old(h).cells@,
                final(h).cells@,
                w,
                x.data@ + y.data@,
                spec_combine(x.trust, y.trust),
            )
            &&& r matches Err(m) ==> final(h).cells@ == old(h).cells@ && m@
                == "bytes.concat(): the result would be "@ + decimal_nat(
                x.data@.len() + y.data@.len(),
            ) + " octets, past the 4294967295 octet limit"@
        }),
{
    let joined: Result<BytesObj, String> = match (h.object(a), h.object(b)) {
        (Some(Obj::Bytes(x)), Some(Obj::Bytes(y))) => concat(x, y),
        _ => Err(String::new()),
    };
    match joined {
        Ok(o) => {
            let w: i64 = h.leak_obj(Obj::Bytes(o));
            assert(h.cells@.drop_last() =~= old(h).cells@);
            Ok(w)
        },
        Err(m) => Err(m),
    }
}

/// Write an octet of a blob in place: 1, or 0 and why not.
pub fn jrt_bytes_set(h: &mut Heap, w: i64, i: i64, v: i64) -> (r: (i32, Option<String>))
    requires
        old(h).wf(),
        bytes_at(old(h).cells@, w) is Some,
    ensures
        final(h).wf(),
        final(h).rc_on == old(h).rc_on,
        only_changes(old(h).cells@, final(h).cells@, w),
        ({
            let b = bytes_at(old(h).cells@, w)->Some_0;
            let inside = 0 <= i < b.data@.len();
            &&& bytes_at(final(h).cells@, w) matches Some(c) && c.trust == b.trust && c.header
                == b.header && c.data@ == (if inside && 0 <= v <= 255 {
                b.data@.update(i as int, v as u8)
            } else {
                b.data@
            })
            &&& inside && 0 <= v <= 255 ==> r.0 == 1 && r.1 is None
            &&& !inside ==> r.0 == 0 && (r.1 matches Some(m) && m@ == out_of_range_text(
                i as int,
                b.data@.len(),
            ))
            &&& inside && !(0 <= v <= 255) ==> r.0 == 0 && (r.1 matches Some(m) && m@
                == "a bytes element is an octet in 0 to 255, got "@ + decimal(v as int))
        }),
{
    let k: usize = cell_index(h, w);
    let ghost mid = h.cells@;
    let done: Result<(), String> = match &mut h.cells[k] {
        Cell::Obj(Obj::Bytes(b)) => set(b, i, v),
        _ => Ok(()),
    };
    proof {
        let o = h.cells@[k as int]->Obj_0;
        edit_keeps_cells(mid, k as int, o);
        assert(h.cells@ =~= mid.update(k as int, Cell::Obj(o)));
    }
    match done {
        Ok(_) => (1, None),
        Err(m) => (0, Some(m)),
    }
}

// ── Laws ─────────────────────────────────────────────────────────────────────

/// Encoding a text and decoding the octets gives the text back.
pub proof fn decode_undoes_encode(s: Seq<char>)
    ensures
        vstd::utf8::valid_utf8(vstd::utf8::encode_utf8(s)),
        vstd::utf8::decode_utf8(vstd::utf8::encode_utf8(s)) == s,
{
    vstd::utf8::encode_utf8_valid_utf8(s);
    vstd::utf8::encode_utf8_decode_utf8(s);
}

/// Joining never launders: the joined blob is trusted only when both inputs are.
pub proof fn concat_never_launders(a: u8, b: u8)
    ensures
        spec_combine(a, b) == TRUSTED <==> a == TRUSTED && b == TRUSTED,
{
    combine_is_stricter(a, b);
}

/// A slice holds the octets from its start up to its end, and its ends stay within the
/// octets; cutting anywhere loses none.
pub proof fn octet_slices_hold_what_lies_between(data: Seq<u8>, start: int, end: int)
    ensures
        0 <= start <= end <= data.len() ==> octets_between(data, start, end).len() == end - start && (
        forall|i: int|
            0 <= i < end - start ==> #[trigger] octets_between(data, start, end)[i] == data[start
                + i]),
        end <= start ==> octets_between(data, start, end).len() == 0,
        start < 0 ==> octets_between(data, start, end) == octets_between(data, 0, end),
        end > data.len() ==> octets_between(data, start, end) == octets_between(
            data,
            start,
            data.len() as int,
        ),
        0 <= start <= data.len() ==> octets_between(data, 0, start) + octets_between(
            data,
            start,
            data.len() as int,
        ) == data,
{
    if 0 <= start <= data.len() {
        assert(octets_between(data, 0, start) + octets_between(data, start, data.len() as int)
            =~= data);
    }
}

/// Octets are integers from nought to 255; where all words are, they make a blob of as many,
/// and where one is not, the first of them is refused.
pub proof fn octets_or_a_refusal(ws: Seq<i64>, data: Seq<u8>, text: Seq<char>, w: i64)
    ensures
        crate::value::decode(w as u64) matches Val::Int(v) ==> (is_octet(w) <==> 0 <= v < 256),
        !(crate::value::decode(w as u64) is Int) ==> !is_octet(w),
        stand_for_octets(ws, data) ==> data.len() == ws.len() && forall|i: int|
            0 <= i < ws.len() ==> is_octet(#[trigger] ws[i]),
        refused(ws, text) ==> exists|i: int| 0 <= i < ws.len() && !is_octet(#[trigger] ws[i]),
        !(stand_for_octets(ws, data) && refused(ws, text)),
{
    if stand_for_octets(ws, data) {
        assert forall|i: int| 0 <= i < ws.len() implies is_octet(#[trigger] ws[i]) by {
            assert(crate::value::decode(ws[i] as u64) == Val::Int(data[i] as int));
        }
    }
    if refused(ws, text) {
        let i = choose|i: int| #[trigger] first_bad(ws, i) && text == element_error(i, ws[i]);
        assert(!is_octet(ws[i]));
    }
}

/// Zeros are given for a length that is not negative, not past the limit and has room, and
/// then as many as asked for.
pub proof fn zeros_are_given_within_the_limit(n: int, reserved: bool, r: Result<Seq<u8>, Seq<char>>)
    ensures
        zeros_refusal(n, reserved) is None <==> 0 <= n <= 4_294_967_295 && reserved,
        zeros_result(n, reserved, r) && zeros_refusal(n, reserved) is None ==> (r matches Ok(d)
            && d.len() == n && forall|i: int| 0 <= i < n ==> #[trigger] d[i] == 0),
{
}

/// A new blob is found by its word with the octets and the trust it was made of, and nothing
/// before it changes.
pub proof fn new_blobs_hold_their_octets(
    before: Seq<Cell>,
    after: Seq<Cell>,
    w: i64,
    data: Seq<u8>,
    trust: u8,
    i: int,
)
    requires
        new_blob(before, after, w, data, trust),
    ensures
        bytes_at(after, w) matches Some(b) && b.data@ == data && b.trust == trust,
        0 <= i < before.len() ==> after[i] == before[i],
        after.len() == before.len() + 1,
{
    if 0 <= i < before.len() {
        assert(after.drop_last()[i] == after[i]);
    }
}

} // verus!
