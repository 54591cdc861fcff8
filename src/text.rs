//! Strings and byte buffers: a varint length, then that many bytes. A string
//! is checked to be well-formed UTF-8 on the way in; skipping one checks
//! nothing.
use vstd::prelude::*;
use vstd::string::StringSliceAdditionalSpecFns;
use vstd::utf8::{valid_utf8, encode_utf8, decode_utf8};
use crate::error::Error;
use crate::cursor::{advance, write_to_slice, emitted, skipped};
use crate::varint::{uint_bytes, parse_uint, size_uint, marshal_uint, unmarshal_uint};

verus! {

/// The bytes of a byte buffer: its length as a varint, then its contents.
pub open spec fn framed(b: Seq<u8>) -> Seq<u8> {
    uint_bytes(b.len() as u64) + b
}

/// The bytes of a string: its UTF-8 encoding, framed.
pub open spec fn string_bytes(s: Seq<char>) -> Seq<u8> {
    framed(encode_utf8(s))
}

/// What reading a byte buffer from the front of `s` gives: the contents and
/// the number of bytes taken, or the error.
pub open spec fn parse_bytes(s: Seq<u8>) -> Result<(Seq<u8>, nat), Error> {
    match parse_uint(s) {
        Ok((len, n)) => if n + len as nat > s.len() {
            Err(Error::BufferTooSmall)
        } else {
            Ok((s.subrange(n as int, n + len as int), n + len as nat))
        },
        Err(e) => Err(e),
    }
}

/// The outcome of reading a string from a cursor that stood on `start` and
/// stands on `rest`: the framed bytes must be there (else the error of
/// `parse_bytes`), then be well-formed UTF-8 (else `InvalidUtf8`), and then
/// the text is what they decode to.
pub open spec fn string_read<'a>(r: Result<&'a str, Error>, start: Seq<u8>, rest: Seq<u8>) -> bool {
    match parse_bytes(start) {
        Ok((b, n)) => if valid_utf8(b) {
            r matches Ok(t) && t@ == decode_utf8(b) && rest == start.skip(n as int)
        } else {
            r matches Err(Error::InvalidUtf8(_))
        },
        Err(e) => r == Err::<&'a str, Error>(e),
    }
}

/// Relies on `std::str::from_utf8`: it succeeds exactly on well-formed
/// UTF-8, and then views the same bytes as text.
#[verifier::external_body]
fn str_from_utf8<'a>(b: &'a [u8]) -> (r: Result<&'a str, std::str::Utf8Error>)
    ensures
        r is Ok <==> valid_utf8(b@),
        r matches Ok(t) ==> t@ == decode_utf8(b@),
{
    std::str::from_utf8(b)
}

/// Reads a varint length and takes that many bytes, as a view into the
/// input.
fn take_framed<'a>(reader: &mut &'a [u8]) -> (r: Result<&'a [u8], Error>)
    ensures
        match parse_bytes(old(reader)@) {
            Ok((b, n)) => r matches Ok(v) && v@ == b && n <= old(reader)@.len()
                && final(reader)@ == old(reader)@.skip(n as int),
            Err(e) => r == Err::<&'a [u8], Error>(e),
        },
{
    let len = unmarshal_uint(reader)?;
    if len > reader.len() as u64 {
        return Err(Error::BufferTooSmall);
    }
    let r = advance(reader, len as usize);
    proof {
        let s = old(reader)@;
        if let Ok((l, n)) = parse_uint(s) {
            assert(s.skip(n as int).take(len as int) == s.subrange(n as int, n + len as int));
            assert(s.skip(n as int).skip(len as int) == s.skip(n + len as int));
        }
    }
    r
}

/// Returns the number of bytes that `marshal_string` writes for `s`.
pub fn size_string(s: &str) -> (r: usize)
    requires
        s.spec_bytes().len() + 10 <= usize::MAX,
    ensures
        r == string_bytes(s@).len(),
{
    size_uint(s.len() as u64) + s.len()
}

/// Writes a string: its byte length as a varint, then its UTF-8 bytes.
pub fn marshal_string(s: &str, writer: &mut &mut [u8]) -> (r: Result<(), Error>)
    ensures
        emitted(r, old(writer)@, final(writer)@, final(*old(writer))@, final(*final(writer))@, string_bytes(s@)),
{
    marshal_bytes(s.as_bytes(), writer)
}

/// Reads a string as a view into the input. The length and the bytes must
/// be there (else `BufferTooSmall`) before the bytes are checked to be UTF-8
/// (else `InvalidUtf8`).
pub fn unmarshal_string<'a>(reader: &mut &'a [u8]) -> (r: Result<&'a str, Error>)
    ensures
        string_read(r, old(reader)@, final(reader)@),
{
    let bytes = take_framed(reader)?;
    match str_from_utf8(bytes) {
        Ok(t) => Ok(t),
        Err(e) => Err(Error::InvalidUtf8(e)),
    }
}

/// Moves the read cursor past a string, without checking its bytes.
pub fn skip_string(reader: &mut &[u8]) -> (r: Result<(), Error>)
    ensures
        skipped(r, parse_bytes(old(reader)@), old(reader)@, final(reader)@),
{
    take_framed(reader)?;
    Ok(())
}

/// Returns the number of bytes that `marshal_bytes` writes for `b`.
pub fn size_bytes(b: &[u8]) -> (r: usize)
    requires
        b@.len() + 10 <= usize::MAX,
    ensures
        r == framed(b@).len(),
{
    size_uint(b.len() as u64) + b.len()
}

/// Writes a byte buffer: its length as a varint, then its bytes.
pub fn marshal_bytes(b: &[u8], writer: &mut &mut [u8]) -> (r: Result<(), Error>)
    ensures
        emitted(r, old(writer)@, final(writer)@, final(*old(writer))@, final(*final(writer))@, framed(b@)),
{
    broadcast use crate::cursor::lemma_wrote_concat;
    marshal_uint(b.len() as u64, writer)?;
    let r = write_to_slice(writer, b);
    assert(framed(b@) == uint_bytes(b@.len() as u64) + b@);
    r
}

/// Reads a byte buffer as a view into the input, without copying.
pub fn unmarshal_bytes_cropped<'a>(reader: &mut &'a [u8]) -> (r: Result<&'a [u8], Error>)
    ensures
        match parse_bytes(old(reader)@) {
            Ok((b, n)) => r matches Ok(v) && v@ == b && final(reader)@ == old(reader)@.skip(n as int),
            Err(e) => r == Err::<&'a [u8], Error>(e),
        },
{
    take_framed(reader)
}

/// Reads a byte buffer into a vector of its own.
pub fn unmarshal_bytes_copied(reader: &mut &[u8]) -> (r: Result<Vec<u8>, Error>)
    ensures
        match parse_bytes(old(reader)@) {
            Ok((b, n)) => r matches Ok(v) && v@ == b && final(reader)@ == old(reader)@.skip(n as int),
            Err(e) => r == Err::<Vec<u8>, Error>(e),
        },
{
    let bytes = take_framed(reader)?;
    let mut owned: Vec<u8> = Vec::with_capacity(bytes.len());
    let mut i: usize = 0;
    while i < bytes.len()
        invariant
            i <= bytes@.len(),
            owned@ == bytes@.take(i as int),
        decreases bytes@.len() - i,
    {
        owned.push(bytes[i]);
        assert(owned@ == bytes@.take(i + 1));
        i = i + 1;
    }
    assert(owned@ == bytes@);
    Ok(owned)
}

/// Moves the read cursor past a byte buffer.
pub fn skip_bytes(reader: &mut &[u8]) -> (r: Result<(), Error>)
    ensures
        skipped(r, parse_bytes(old(reader)@), old(reader)@, final(reader)@),
{
    take_framed(reader)?;
    Ok(())
}

} // verus!
