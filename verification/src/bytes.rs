//! Little-endian fields: how they are written, and the cursor that reads them.
//!
//! Integers are little-endian and fixed-width; byte sequences and strings carry
//! a `u64` length; an `Option` starts with a one-byte tag.

use vstd::prelude::*;
use vstd::utf8;

use crate::error::Error;
use crate::le;

verus! {

broadcast use crate::le::group_widths;

// ---------------------------------------------------------------------------
// What a field looks like on the wire
// ---------------------------------------------------------------------------

/// A byte sequence on the wire: its length as a `u64`, then the bytes.
pub open spec fn blob_bytes(raw: Seq<u8>) -> Seq<u8> {
    le::u64_bytes(raw.len() as u64) + raw
}

/// A string on the wire: its UTF-8 encoding as a byte sequence.
pub open spec fn string_bytes(s: Seq<char>) -> Seq<u8> {
    blob_bytes(utf8::encode_utf8(s))
}

/// A `bool` on the wire: one byte, 0 or 1.
pub open spec fn bool_bytes(x: bool) -> Seq<u8> {
    seq![if x { 1u8 } else { 0u8 }]
}

/// `b` holds the bytes `part` from offset `at` on.
pub open spec fn holds(b: Seq<u8>, at: int, part: Seq<u8>) -> bool {
    &&& 0 <= at
    &&& at + part.len() <= b.len()
    &&& b.subrange(at, at + part.len()) == part
}

// ---------------------------------------------------------------------------
// Reading a field at an offset: its value and the offset behind it
// ---------------------------------------------------------------------------

/// The bytes from `at` to `at + n`.
pub open spec fn read_bytes(b: Seq<u8>, at: int, n: int) -> Result<(Seq<u8>, int), Error> {
    if at + n > b.len() {
        Err(Error::Truncated { wanted: n as usize, at: at as usize, len: b.len() as usize })
    } else {
        Ok((b.subrange(at, at + n), at + n))
    }
}

pub open spec fn read_u8(b: Seq<u8>, at: int) -> Result<(u8, int), Error> {
    match read_bytes(b, at, 1) {
        Ok((s, p)) => Ok((s[0], p)),
        Err(e) => Err(e),
    }
}

pub open spec fn read_u16(b: Seq<u8>, at: int) -> Result<(u16, int), Error> {
    match read_bytes(b, at, 2) {
        Ok((s, p)) => Ok((le::u16_of(s), p)),
        Err(e) => Err(e),
    }
}

pub open spec fn read_u32(b: Seq<u8>, at: int) -> Result<(u32, int), Error> {
    match read_bytes(b, at, 4) {
        Ok((s, p)) => Ok((le::u32_of(s), p)),
        Err(e) => Err(e),
    }
}

pub open spec fn read_u64(b: Seq<u8>, at: int) -> Result<(u64, int), Error> {
    match read_bytes(b, at, 8) {
        Ok((s, p)) => Ok((le::u64_of(s), p)),
        Err(e) => Err(e),
    }
}

/// The one-byte tag of an `Option`: 0 for `None`, 1 for `Some`.
pub open spec fn read_option_tag(b: Seq<u8>, at: int) -> Result<(bool, int), Error> {
    match read_u8(b, at) {
        Ok((v, p)) => if v == 0 {
            Ok((false, p))
        } else if v == 1 {
            Ok((true, p))
        } else {
            Err(Error::BadOptionTag { at: at as usize, value: v })
        },
        Err(e) => Err(e),
    }
}

/// A byte sequence; `field` names it in the error.
pub open spec fn read_blob(b: Seq<u8>, at: int, field: &'static str) -> Result<
    (Seq<u8>, int),
    Error,
> {
    match read_u64(b, at) {
        Ok((n, p)) => if n > b.len() - p {
            Err(Error::ImplausibleLength { field, value: n, at: at as usize })
        } else {
            read_bytes(b, p, n as int)
        },
        Err(e) => Err(e),
    }
}

#[verifier::opaque]
pub open spec fn read_string(b: Seq<u8>, at: int) -> Result<(Seq<char>, int), Error> {
    match read_blob(b, at, "string") {
        Ok((raw, p)) => if utf8::valid_utf8(raw) {
            Ok((utf8::decode_utf8(raw), p))
        } else {
            Err(Error::InvalidUtf8 { at: at as usize })
        },
        Err(e) => Err(e),
    }
}

/// What a cursor at offset `pos` has to show for the read that returned `r`.
pub open spec fn outcome<T>(r: Result<T, Error>, pos: int) -> Result<(T, int), Error> {
    match r {
        Ok(v) => Ok((v, pos)),
        Err(e) => Err(e),
    }
}

/// As [`outcome`], the value taken by its view.
pub open spec fn viewed<T: View>(r: Result<T, Error>, pos: int) -> Result<(T::V, int), Error> {
    match r {
        Ok(v) => Ok((v.view(), pos)),
        Err(e) => Err(e),
    }
}

/// The value of a read whose end does not matter.
pub open spec fn value_of<T>(r: Result<(T, int), Error>) -> Result<T, Error> {
    match r {
        Ok((v, _)) => Ok(v),
        Err(e) => Err(e),
    }
}

/// A result, its value taken by its view.
pub open spec fn view_of<T: View>(r: Result<T, Error>) -> Result<T::V, Error> {
    match r {
        Ok(v) => Ok(v.view()),
        Err(e) => Err(e),
    }
}

// ---------------------------------------------------------------------------
// Writing and reading are inverse
// ---------------------------------------------------------------------------

/// A concatenation is held where its two parts are.
pub proof fn lemma_holds_concat(b: Seq<u8>, at: int, left: Seq<u8>, right: Seq<u8>)
    ensures
        holds(b, at, left + right) <==> holds(b, at, left) && holds(b, at + left.len(), right),
{
    if holds(b, at, left + right) {
        let whole = b.subrange(at, at + left.len() + right.len());
        assert(b.subrange(at, at + left.len()) =~= whole.subrange(0, left.len() as int));
        assert(whole.subrange(0, left.len() as int) =~= left);
        assert(b.subrange(at + left.len(), at + left.len() + right.len()) =~= whole.subrange(
            left.len() as int,
            (left.len() + right.len()) as int,
        ));
        assert(whole.subrange(left.len() as int, (left.len() + right.len()) as int) =~= right);
    }
    if holds(b, at, left) && holds(b, at + left.len(), right) {
        assert(b.subrange(at, at + left.len() + right.len()) =~= left + right);
    }
}

/// Bytes that hold a field read back as that field.
pub proof fn lemma_read_back_u8(b: Seq<u8>, at: int, x: u8)
    requires
        holds(b, at, seq![x]),
    ensures
        read_u8(b, at) == Ok::<(u8, int), Error>((x, at + 1)),
{
    assert(b.subrange(at, at + 1)[0] == x);
}

/// Bytes that hold a field read back as that field.
pub proof fn lemma_read_back_u16(b: Seq<u8>, at: int, x: u16)
    requires
        holds(b, at, le::u16_bytes(x)),
    ensures
        read_u16(b, at) == Ok::<(u16, int), Error>((x, at + 2)),
{
    le::lemma_u16_round_trip(x, le::u16_bytes(x));
}

/// Bytes that hold a field read back as that field.
pub proof fn lemma_read_back_u32(b: Seq<u8>, at: int, x: u32)
    requires
        holds(b, at, le::u32_bytes(x)),
    ensures
        read_u32(b, at) == Ok::<(u32, int), Error>((x, at + 4)),
{
    le::lemma_u32_round_trip(x, le::u32_bytes(x));
}

/// Bytes that hold a field read back as that field.
pub proof fn lemma_read_back_u64(b: Seq<u8>, at: int, x: u64)
    requires
        holds(b, at, le::u64_bytes(x)),
    ensures
        read_u64(b, at) == Ok::<(u64, int), Error>((x, at + 8)),
{
    le::lemma_u64_round_trip(x, le::u64_bytes(x));
}

/// Bytes that hold a byte sequence read back as that sequence.
pub proof fn lemma_read_back_blob(b: Seq<u8>, at: int, raw: Seq<u8>, field: &'static str)
    requires
        holds(b, at, blob_bytes(raw)),
        raw.len() <= u64::MAX,
    ensures
        read_blob(b, at, field) == Ok::<(Seq<u8>, int), Error>((raw, at + 8 + raw.len())),
{
    lemma_holds_concat(b, at, le::u64_bytes(raw.len() as u64), raw);
    lemma_read_back_u64(b, at, raw.len() as u64);
}

/// Bytes that hold a string read back as that string.
pub proof fn lemma_read_back_string(b: Seq<u8>, at: int, s: Seq<char>)
    requires
        holds(b, at, string_bytes(s)),
        utf8::encode_utf8(s).len() <= u64::MAX,
    ensures
        read_string(b, at) == Ok::<(Seq<char>, int), Error>((s, at + string_bytes(s).len())),
{
    reveal(read_string);
    lemma_read_back_blob(b, at, utf8::encode_utf8(s), "string");
    utf8::encode_utf8_valid_utf8(s);
    utf8::encode_utf8_decode_utf8(s);
}

/// A field that was read is held by the bytes it was read from.
pub proof fn lemma_read_u8_holds(b: Seq<u8>, at: int)
    requires
        0 <= at,
    ensures
        read_u8(b, at) matches Ok((x, p)) ==> p == at + 1 && holds(b, at, seq![x]),
{
    if at + 1 <= b.len() {
        assert(b.subrange(at, at + 1) =~= seq![b.subrange(at, at + 1)[0]]);
    }
}

/// A field that was read is held by the bytes it was read from.
pub proof fn lemma_read_u16_holds(b: Seq<u8>, at: int)
    requires
        0 <= at,
    ensures
        read_u16(b, at) matches Ok((x, p)) ==> p == at + 2 && holds(b, at, le::u16_bytes(x)),
{
    if at + 2 <= b.len() {
        le::lemma_u16_round_trip(0, b.subrange(at, at + 2));
    }
}

/// A field that was read is held by the bytes it was read from.
pub proof fn lemma_read_u32_holds(b: Seq<u8>, at: int)
    requires
        0 <= at,
    ensures
        read_u32(b, at) matches Ok((x, p)) ==> p == at + 4 && holds(b, at, le::u32_bytes(x)),
{
    if at + 4 <= b.len() {
        le::lemma_u32_round_trip(0, b.subrange(at, at + 4));
    }
}

/// A field that was read is held by the bytes it was read from.
pub proof fn lemma_read_u64_holds(b: Seq<u8>, at: int)
    requires
        0 <= at,
    ensures
        read_u64(b, at) matches Ok((x, p)) ==> p == at + 8 && holds(b, at, le::u64_bytes(x)),
{
    if at + 8 <= b.len() {
        le::lemma_u64_round_trip(0, b.subrange(at, at + 8));
    }
}

/// A byte sequence that was read is held by the bytes it was read from.
pub proof fn lemma_read_blob_holds(b: Seq<u8>, at: int, field: &'static str)
    requires
        0 <= at,
    ensures
        read_blob(b, at, field) matches Ok((raw, p)) ==> {
            &&& p == at + 8 + raw.len()
            &&& raw.len() <= u64::MAX
            &&& holds(b, at, blob_bytes(raw))
        },
{
    if let Ok((raw, p)) = read_blob(b, at, field) {
        lemma_read_u64_holds(b, at);
        lemma_holds_concat(b, at, le::u64_bytes(raw.len() as u64), raw);
    }
}

/// A string that was read is held by the bytes it was read from.
pub proof fn lemma_read_string_holds(b: Seq<u8>, at: int)
    requires
        0 <= at,
    ensures
        read_string(b, at) matches Ok((s, p)) ==> {
            &&& p == at + string_bytes(s).len()
            &&& utf8::encode_utf8(s).len() <= u64::MAX
            &&& holds(b, at, string_bytes(s))
        },
{
    reveal(read_string);
    if let Ok((s, p)) = read_string(b, at) {
        lemma_read_blob_holds(b, at, "string");
        let raw = read_blob(b, at, "string")->Ok_0.0;
        utf8::decode_utf8_encode_utf8(raw);
    }
}

// ---------------------------------------------------------------------------
// Writers
// ---------------------------------------------------------------------------

/// Append `raw` as it is.
pub fn put_bytes(out: &mut Vec<u8>, raw: &[u8])
    ensures
        final(out)@ == old(out)@ + raw@,
{
    out.extend_from_slice(raw);
    assert(out@ =~= old(out)@ + raw@);
}

pub fn put_u16(out: &mut Vec<u8>, x: u16)
    ensures
        final(out)@ == old(out)@ + le::u16_bytes(x),
{
    proof {
        reveal(le::u16_bytes);
    }
    out.push((x % 256) as u8);
    out.push((x / 256) as u8);
    assert(out@ =~= old(out)@ + le::u16_bytes(x));
}

pub fn put_u32(out: &mut Vec<u8>, x: u32)
    ensures
        final(out)@ == old(out)@ + le::u32_bytes(x),
{
    proof {
        reveal(le::u32_bytes);
    }
    out.push((x % 256) as u8);
    out.push(((x / 256) % 256) as u8);
    out.push(((x / 65536) % 256) as u8);
    out.push((x / 16777216) as u8);
    assert(out@ =~= old(out)@ + le::u32_bytes(x));
}

pub fn put_u64(out: &mut Vec<u8>, x: u64)
    ensures
        final(out)@ == old(out)@ + le::u64_bytes(x),
{
    proof {
        reveal(le::u64_bytes);
    }
    put_u32(out, (x % 0x1_0000_0000) as u32);
    put_u32(out, (x / 0x1_0000_0000) as u32);
    assert(out@ =~= old(out)@ + le::u64_bytes(x));
}

pub fn put_bool(out: &mut Vec<u8>, x: bool)
    ensures
        final(out)@ == old(out)@ + bool_bytes(x),
{
    out.push(if x { 1 } else { 0 });
    assert(out@ =~= old(out)@ + bool_bytes(x));
}

/// Append `raw` behind its length.
pub fn put_blob(out: &mut Vec<u8>, raw: &[u8])
    ensures
        final(out)@ == old(out)@ + blob_bytes(raw@),
{
    put_u64(out, raw.len() as u64);
    put_bytes(out, raw);
    assert(out@ =~= old(out)@ + blob_bytes(raw@));
}

/// Append the UTF-8 bytes of `s` behind their length.
pub fn put_string(out: &mut Vec<u8>, s: &str)
    ensures
        final(out)@ == old(out)@ + string_bytes(s@),
{
    put_blob(out, s.as_bytes());
}

/// `buf` with `piece` written over its bytes from `at` on.
pub open spec fn overwritten(buf: Seq<u8>, at: int, piece: Seq<u8>) -> Seq<u8> {
    Seq::new(
        buf.len(),
        |i: int| if at <= i < at + piece.len() { piece[i - at] } else { buf[i] },
    )
}

/// Write `piece` over the bytes of `buf` from `at` on.
pub fn overwrite(buf: &mut Vec<u8>, at: usize, piece: &[u8])
    requires
        at + piece@.len() <= old(buf)@.len(),
    ensures
        final(buf)@ == overwritten(old(buf)@, at as int, piece@),
{
    let mut i: usize = 0;
    let size: usize = buf.len();
    assert(buf@ =~= overwritten(old(buf)@, at as int, piece@.take(0)));
    while i < piece.len()
        invariant
            i <= piece@.len(),
            at + piece@.len() <= size,
            size == buf@.len(),
            buf@ == overwritten(old(buf)@, at as int, piece@.take(i as int)),
        decreases piece@.len() - i,
    {
        buf.set(at + i, piece[i]);
        assert(buf@ =~= overwritten(old(buf)@, at as int, piece@.take(i + 1)));
        i = i + 1;
    }
    assert(piece@.take(i as int) =~= piece@);
}

// ---------------------------------------------------------------------------
// The reading cursor
// ---------------------------------------------------------------------------

/// `String::from_utf8`: bytes that are well-formed UTF-8 become the string they
/// encode, all others are refused.
#[verifier::external_body]
fn string_from_utf8(raw: Vec<u8>) -> (r: Option<String>)
    ensures
        r is Some <==> utf8::valid_utf8(raw@),
        r matches Some(s) ==> s@ == utf8::decode_utf8(raw@),
{
    String::from_utf8(raw).ok()
}

/// A position in a byte buffer.
pub struct Cursor<'a> {
    pub buf: &'a [u8],
    pub pos: usize,
}

impl<'a> Cursor<'a> {
    /// The position is inside the buffer or right behind it.
    pub open spec fn wf(&self) -> bool {
        self.pos <= self.buf@.len()
    }

    /// `self` reads the buffer that `before` read.
    pub open spec fn follows(&self, before: &Cursor<'a>) -> bool {
        self.wf() && self.buf == before.buf
    }

    pub fn new(buf: &'a [u8]) -> (c: Cursor<'a>)
        ensures
            c.wf(),
            c.buf == buf,
            c.pos == 0,
    {
        Cursor { buf, pos: 0 }
    }

    /// Bytes not read yet.
    pub fn remaining(&self) -> (n: usize)
        requires
            self.wf(),
        ensures
            n == self.buf@.len() - self.pos,
    {
        self.buf.len() - self.pos
    }

    pub fn take(&mut self, n: usize) -> (r: Result<&'a [u8], Error>)
        requires
            old(self).wf(),
        ensures
            final(self).follows(old(self)),
            viewed(r, final(self).pos as int) == read_bytes(
                old(self).buf@,
                old(self).pos as int,
                n as int,
            ),
    {
        if n > self.buf.len() - self.pos {
            return Err(Error::Truncated { wanted: n, at: self.pos, len: self.buf.len() });
        }
        let out = vstd::slice::slice_subrange(self.buf, self.pos, self.pos + n);
        self.pos = self.pos + n;
        Ok(out)
    }

    pub fn u8(&mut self) -> (r: Result<u8, Error>)
        requires
            old(self).wf(),
        ensures
            final(self).follows(old(self)),
            outcome(r, final(self).pos as int) == read_u8(old(self).buf@, old(self).pos as int),
    {
        let b = self.take(1)?;
        Ok(b[0])
    }

    pub fn u16(&mut self) -> (r: Result<u16, Error>)
        requires
            old(self).wf(),
        ensures
            final(self).follows(old(self)),
            outcome(r, final(self).pos as int) == read_u16(old(self).buf@, old(self).pos as int),
    {
        proof {
            reveal(le::u16_of);
        }
        let b = self.take(2)?;
        Ok(b[0] as u16 + 256 * (b[1] as u16))
    }

    pub fn u32(&mut self) -> (r: Result<u32, Error>)
        requires
            old(self).wf(),
        ensures
            final(self).follows(old(self)),
            outcome(r, final(self).pos as int) == read_u32(old(self).buf@, old(self).pos as int),
    {
        proof {
            reveal(le::u32_of);
        }
        let b = self.take(4)?;
        Ok(
            b[0] as u32 + 256 * (b[1] as u32) + 65536 * (b[2] as u32) + 16777216 * (b[3] as u32),
        )
    }

    pub fn u64(&mut self) -> (r: Result<u64, Error>)
        requires
            old(self).wf(),
        ensures
            final(self).follows(old(self)),
            outcome(r, final(self).pos as int) == read_u64(old(self).buf@, old(self).pos as int),
    {
        proof {
            reveal(le::u32_of);
            reveal(le::u64_of);
        }
        let b = self.take(8)?;
        let lo: u32 = b[0] as u32 + 256 * (b[1] as u32) + 65536 * (b[2] as u32) + 16777216 * (
        b[3] as u32);
        let hi: u32 = b[4] as u32 + 256 * (b[5] as u32) + 65536 * (b[6] as u32) + 16777216 * (
        b[7] as u32);
        Ok(lo as u64 + 0x1_0000_0000 * (hi as u64))
    }

    pub fn option_tag(&mut self) -> (r: Result<bool, Error>)
        requires
            old(self).wf(),
        ensures
            final(self).follows(old(self)),
            outcome(r, final(self).pos as int) == read_option_tag(
                old(self).buf@,
                old(self).pos as int,
            ),
    {
        let at = self.pos;
        let value = self.u8()?;
        if value == 0 {
            Ok(false)
        } else if value == 1 {
            Ok(true)
        } else {
            Err(Error::BadOptionTag { at, value })
        }
    }

    /// A byte sequence: `u64` length followed by that many bytes.
    pub fn bytes(&mut self, field: &'static str) -> (r: Result<&'a [u8], Error>)
        requires
            old(self).wf(),
        ensures
            final(self).follows(old(self)),
            viewed(r, final(self).pos as int) == read_blob(
                old(self).buf@,
                old(self).pos as int,
                field,
            ),
    {
        let at = self.pos;
        let n = self.u64()?;
        if n > self.remaining() as u64 {
            return Err(Error::ImplausibleLength { field, value: n, at });
        }
        self.take(n as usize)
    }

    pub fn string(&mut self) -> (r: Result<String, Error>)
        requires
            old(self).wf(),
        ensures
            final(self).follows(old(self)),
            viewed(r, final(self).pos as int) == read_string(old(self).buf@, old(self).pos as int),
    {
        proof {
            reveal(read_string);
        }
        let at = self.pos;
        let raw = self.bytes("string")?;
        match string_from_utf8(vstd::slice::slice_to_vec(raw)) {
            Some(s) => Ok(s),
            None => Err(Error::InvalidUtf8 { at }),
        }
    }
}

} // verus!
