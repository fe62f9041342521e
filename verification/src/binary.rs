//! The wire codec: fixed-width big-endian integers and length-prefixed
//! strings, as every log record and snapshot uses them.

use crate::error::{DbError, DbResult, Fault};
use vstd::prelude::*;
use vstd::slice::slice_subrange;
use vstd::string::StringSliceAdditionalSpecFns;
use vstd::utf8::{decode_utf8, encode_utf8, valid_utf8};

verus! {

/// The four bytes of `n`, most significant first.
pub open spec fn be_bytes(n: u32) -> Seq<u8> {
    seq![
        (n / 0x100_0000) as u8,
        ((n / 0x1_0000) % 0x100) as u8,
        ((n / 0x100) % 0x100) as u8,
        (n % 0x100) as u8,
    ]
}

/// The number whose big-endian bytes are the first four of `b`.
pub open spec fn be_value(b: Seq<u8>) -> u32
    recommends
        b.len() >= 4,
{
    (b[0] as int * 0x100_0000 + b[1] as int * 0x1_0000 + b[2] as int * 0x100 + b[3] as int) as u32
}

/// A string on the wire: the length of its UTF-8 form in four big-endian
/// bytes (reduced modulo 2^32), then the UTF-8 bytes themselves.
#[verifier::opaque]
pub open spec fn wire_string(s: Seq<char>) -> Seq<u8> {
    be_bytes((encode_utf8(s).len() % 0x1_0000_0000) as u32) + encode_utf8(s)
}

/// What reading a big-endian `u32` at `at` yields, and where the cursor
/// stands afterwards.
pub open spec fn spec_read_u32(bytes: Seq<u8>, at: int) -> (Result<u32, Fault>, int) {
    if 0 <= at && at + 4 <= bytes.len() {
        (Ok(be_value(bytes.subrange(at, at + 4))), at + 4)
    } else {
        (Err(Fault::Truncated), at)
    }
}

/// What taking `n` bytes at `at` yields, and where the cursor stands
/// afterwards.
pub open spec fn spec_read_exact(bytes: Seq<u8>, at: int, n: int) -> (Result<Seq<u8>, Fault>, int) {
    if 0 <= at && 0 <= n && at + n <= bytes.len() {
        (Ok(bytes.subrange(at, at + n)), at + n)
    } else {
        (Err(Fault::Truncated), at)
    }
}

/// What reading a length-prefixed string at `at` yields, and where the
/// cursor stands afterwards.  A reader that fails leaves the cursor behind
/// the last part it took.
#[verifier::opaque]
pub open spec fn spec_read_string(bytes: Seq<u8>, at: int) -> (Result<Seq<char>, Fault>, int) {
    match spec_read_u32(bytes, at) {
        (Err(f), stop) => (Err(f), stop),
        (Ok(n), body) => match spec_read_exact(bytes, body, n as int) {
            (Err(f), stop) => (Err(f), stop),
            (Ok(raw), end) => if valid_utf8(raw) {
                (Ok(decode_utf8(raw)), end)
            } else {
                (Err(Fault::InvalidEncoding), end)
            },
        },
    }
}

/// The string's UTF-8 form is short enough for its length to stand in the
/// four bytes before it.
pub open spec fn fits_wire(s: Seq<char>) -> bool {
    encode_utf8(s).len() <= u32::MAX
}

/// The four bytes of a number give the number back.
pub proof fn lemma_be_round_trip(n: u32)
    ensures
        be_bytes(n).len() == 4,
        be_value(be_bytes(n)) == n,
{
}

/// A string on the wire is four bytes longer than its UTF-8 form.
pub proof fn lemma_wire_string_len(s: Seq<char>)
    ensures
        wire_string(s).len() == 4 + encode_utf8(s).len(),
{
    reveal(wire_string);
}

/// A string that was read from the wire is short enough to be written to it.
pub proof fn lemma_read_string_fits(bytes: Seq<u8>, at: int)
    requires
        spec_read_string(bytes, at).0 is Ok,
    ensures
        fits_wire(spec_read_string(bytes, at).0->Ok_0),
{
    reveal(spec_read_string);
    let len = spec_read_u32(bytes, at).0->Ok_0;
    let raw = bytes.subrange(at + 4, at + 4 + len);
    vstd::utf8::decode_utf8_encode_utf8(raw);
}

/// A reader that stands before the wire form of a string takes exactly that
/// string, whatever bytes come before and after.
pub proof fn lemma_read_written_string(before: Seq<u8>, s: Seq<char>, after: Seq<u8>)
    requires
        fits_wire(s),
    ensures
        spec_read_string(before + wire_string(s) + after, before.len() as int) == (
            Ok::<Seq<char>, Fault>(s),
            (before.len() + wire_string(s).len()) as int,
        ),
        wire_string(s).len() == 4 + encode_utf8(s).len(),
{
    reveal(wire_string);
    reveal(spec_read_string);
    let raw = encode_utf8(s);
    let n = raw.len() as u32;
    let all = before + wire_string(s) + after;
    let at = before.len() as int;
    lemma_be_round_trip(n);
    assert(all.subrange(at, at + 4) =~= be_bytes(n));
    assert(all.subrange(at + 4, at + 4 + n) =~= raw);
    vstd::utf8::encode_utf8_valid_utf8(s);
    vstd::utf8::encode_utf8_decode_utf8(s);
}

/// Appends the four big-endian bytes of `n`.
pub fn write_u32(buf: &mut Vec<u8>, n: u32)
    ensures
        final(buf)@ == old(buf)@ + be_bytes(n),
{
    buf.push((n / 0x100_0000) as u8);
    buf.push(((n / 0x1_0000) % 0x100) as u8);
    buf.push(((n / 0x100) % 0x100) as u8);
    buf.push((n % 0x100) as u8);
    assert(buf@ =~= old(buf)@ + be_bytes(n));
}

/// Appends `s` as a length-prefixed string.
pub fn write_string(buf: &mut Vec<u8>, s: &str)
    ensures
        final(buf)@ == old(buf)@ + wire_string(s@),
{
    let bytes = s.as_bytes();
    let len: u32 = (bytes.len() as u64 % 0x1_0000_0000u64) as u32;
    write_u32(buf, len);
    buf.extend_from_slice(bytes);
    assert(buf@ =~= old(buf)@ + wire_string(s@)) by {
        reveal(wire_string);
    }
}

/// Reads four big-endian bytes at the cursor and moves it past them.
pub fn read_u32(bytes: &[u8], cursor: &mut usize) -> (r: DbResult<u32>)
    ensures
        match r {
            Ok(n) => spec_read_u32(bytes@, *old(cursor) as int).0 == Ok::<u32, Fault>(n),
            Err(e) => spec_read_u32(bytes@, *old(cursor) as int).0 matches Err(f) && e.reports(f),
        },
        *final(cursor) == spec_read_u32(bytes@, *old(cursor) as int).1,
{
    let at: usize = *cursor;
    if bytes.len() < 4 || at > bytes.len() - 4 {
        return Err(DbError::truncated());
    }
    let b0: u32 = bytes[at] as u32;
    let b1: u32 = bytes[at + 1] as u32;
    let b2: u32 = bytes[at + 2] as u32;
    let b3: u32 = bytes[at + 3] as u32;
    *cursor = at + 4;
    Ok(b0 * 0x100_0000 + b1 * 0x1_0000 + b2 * 0x100 + b3)
}

/// Takes the next `len` bytes at the cursor and moves it past them.
pub fn read_exact<'a>(bytes: &'a [u8], cursor: &mut usize, len: usize) -> (r: DbResult<&'a [u8]>)
    ensures
        match r {
            Ok(taken) => spec_read_exact(bytes@, *old(cursor) as int, len as int).0 == Ok::<
                Seq<u8>,
                Fault,
            >(taken@),
            Err(e) => spec_read_exact(bytes@, *old(cursor) as int, len as int).0 matches Err(f)
                && e.reports(f),
        },
        *final(cursor) == spec_read_exact(bytes@, *old(cursor) as int, len as int).1,
{
    let at: usize = *cursor;
    if len > bytes.len() || at > bytes.len() - len {
        return Err(DbError::truncated());
    }
    let taken = slice_subrange(bytes, at, at + len);
    *cursor = at + len;
    Ok(taken)
}

/// Calls `core::str::from_utf8`.  Taken on trust: it gives a string slice
/// exactly when the bytes are well-formed UTF-8, and the slice then has
/// these bytes as its UTF-8 form.
#[verifier::external_body]
fn str_from_utf8<'a>(bytes: &'a [u8]) -> (r: Option<&'a str>)
    ensures
        r is Some <==> valid_utf8(bytes@),
        r matches Some(s) ==> s.spec_bytes() == bytes@,
{
    match core::str::from_utf8(bytes) {
        Ok(s) => Some(s),
        Err(_) => None,
    }
}

/// Reads a length-prefixed string at the cursor and moves it past what was
/// taken.
pub fn read_string(bytes: &[u8], cursor: &mut usize) -> (r: DbResult<String>)
    ensures
        match r {
            Ok(s) => spec_read_string(bytes@, *old(cursor) as int).0 == Ok::<Seq<char>, Fault>(s@),
            Err(e) => spec_read_string(bytes@, *old(cursor) as int).0 matches Err(f) && e.reports(
                f,
            ),
        },
        *final(cursor) == spec_read_string(bytes@, *old(cursor) as int).1,
{
    proof {
        reveal(spec_read_string);
    }
    let len: u32 = match read_u32(bytes, cursor) {
        Ok(n) => n,
        Err(e) => { return Err(e); },
    };
    let raw: &[u8] = match read_exact(bytes, cursor, len as usize) {
        Ok(b) => b,
        Err(e) => { return Err(e); },
    };
    match str_from_utf8(raw) {
        Some(s) => {
            proof {
                vstd::utf8::encode_utf8_decode_utf8(s@);
            }
            Ok(s.to_owned())
        },
        None => Err(DbError::invalid_encoding()),
    }
}

} // verus!
