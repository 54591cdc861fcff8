//! Fixed-width scalars: each takes as many bytes as its width, written
//! little-endian. A boolean is one byte, 1 for true and 0 for false; on the
//! way back only a 1 reads as true.
use vstd::prelude::*;
use crate::error::Error;
use crate::cursor::{advance, write_to_slice, emitted, decoded, skipped};

verus! {

/// 256 to the power `n`.
pub open spec fn pow256(n: nat) -> nat
    decreases n,
{
    if n == 0 {
        1
    } else {
        256 * pow256((n - 1) as nat)
    }
}

/// The `n` little-endian bytes of `x` (taken modulo `256^n`).
pub open spec fn le_bytes(x: nat, n: nat) -> Seq<u8>
    decreases n,
{
    if n == 0 {
        Seq::empty()
    } else {
        seq![(x % 256) as u8] + le_bytes(x / 256, (n - 1) as nat)
    }
}

/// The number that the little-endian bytes `s` stand for.
pub open spec fn le_value(s: Seq<u8>) -> nat
    decreases s.len(),
{
    if s.len() == 0 {
        0
    } else {
        s[0] as nat + 256 * le_value(s.skip(1))
    }
}

/// What reading `n` little-endian bytes from the front of `s` gives.
pub open spec fn parse_fixed(s: Seq<u8>, n: nat) -> Result<(nat, nat), Error> {
    if s.len() < n {
        Err(Error::BufferTooSmall)
    } else {
        Ok((le_value(s.take(n as int)), n))
    }
}

/// The two's complement of `v` in `n` bytes, as an unsigned number.
pub open spec fn twos(v: int, n: nat) -> nat {
    if v >= 0 {
        v as nat
    } else {
        (v + pow256(n)) as nat
    }
}

/// The signed number whose `n`-byte two's complement is `x`.
pub open spec fn untwos(x: nat, n: nat) -> int {
    if 2 * x < pow256(n) {
        x as int
    } else {
        x - pow256(n)
    }
}

/// The byte of a boolean.
pub open spec fn bool_byte(v: bool) -> u8 {
    if v {
        1
    } else {
        0
    }
}

/// What reading one byte from the front of `s` gives.
pub open spec fn parse_u8(s: Seq<u8>) -> Result<(u8, nat), Error> {
    if s.len() < 1 {
        Err(Error::BufferTooSmall)
    } else {
        Ok((s[0], 1))
    }
}

/// What reading an `i8` from the front of `s` gives.
pub open spec fn parse_i8(s: Seq<u8>) -> Result<(i8, nat), Error> {
    if s.len() < 1 {
        Err(Error::BufferTooSmall)
    } else {
        Ok((untwos(s[0] as nat, 1) as i8, 1))
    }
}

/// What reading a boolean from the front of `s` gives: true exactly for 1.
pub open spec fn parse_bool(s: Seq<u8>) -> Result<(bool, nat), Error> {
    if s.len() < 1 {
        Err(Error::BufferTooSmall)
    } else {
        Ok((s[0] == 1, 1))
    }
}

/// What reading a `u16` from the front of `s` gives.
pub open spec fn parse_u16(s: Seq<u8>) -> Result<(u16, nat), Error> {
    match parse_fixed(s, 2) {
        Ok((x, n)) => Ok((x as u16, n)),
        Err(e) => Err(e),
    }
}

/// The bytes of a `u16`: little-endian.
pub open spec fn u16_bytes(v: u16) -> Seq<u8> {
    le_bytes(v as nat, 2)
}

/// What reading a `u32` from the front of `s` gives.
pub open spec fn parse_u32(s: Seq<u8>) -> Result<(u32, nat), Error> {
    match parse_fixed(s, 4) {
        Ok((x, n)) => Ok((x as u32, n)),
        Err(e) => Err(e),
    }
}

/// The bytes of a `u32`: little-endian.
pub open spec fn u32_bytes(v: u32) -> Seq<u8> {
    le_bytes(v as nat, 4)
}

/// What reading a `u64` from the front of `s` gives.
pub open spec fn parse_u64(s: Seq<u8>) -> Result<(u64, nat), Error> {
    match parse_fixed(s, 8) {
        Ok((x, n)) => Ok((x as u64, n)),
        Err(e) => Err(e),
    }
}

/// The bytes of a `u64`: little-endian.
pub open spec fn u64_bytes(v: u64) -> Seq<u8> {
    le_bytes(v as nat, 8)
}

/// What reading an `i16` from the front of `s` gives.
pub open spec fn parse_i16(s: Seq<u8>) -> Result<(i16, nat), Error> {
    match parse_fixed(s, 2) {
        Ok((x, n)) => Ok((untwos(x, 2) as i16, n)),
        Err(e) => Err(e),
    }
}

/// The bytes of an `i16`: its two's complement, little-endian.
pub open spec fn i16_bytes(v: i16) -> Seq<u8> {
    le_bytes(twos(v as int, 2), 2)
}

/// What reading an `i32` from the front of `s` gives.
pub open spec fn parse_i32(s: Seq<u8>) -> Result<(i32, nat), Error> {
    match parse_fixed(s, 4) {
        Ok((x, n)) => Ok((untwos(x, 4) as i32, n)),
        Err(e) => Err(e),
    }
}

/// The bytes of an `i32`: its two's complement, little-endian.
pub open spec fn i32_bytes(v: i32) -> Seq<u8> {
    le_bytes(twos(v as int, 4), 4)
}

/// What reading an `i64` from the front of `s` gives.
pub open spec fn parse_i64(s: Seq<u8>) -> Result<(i64, nat), Error> {
    match parse_fixed(s, 8) {
        Ok((x, n)) => Ok((untwos(x, 8) as i64, n)),
        Err(e) => Err(e),
    }
}

/// The bytes of an `i64`: its two's complement, little-endian.
pub open spec fn i64_bytes(v: i64) -> Seq<u8> {
    le_bytes(twos(v as int, 8), 8)
}

pub proof fn lemma_pow_values()
    ensures
        pow256(1) == 0x100,
        pow256(2) == 0x10000,
        pow256(4) == 0x100000000,
        pow256(7) == 0x100000000000000,
        pow256(8) == 0x10000000000000000,
{
    reveal_with_fuel(pow256, 9);
}

pub proof fn lemma_pow256_mono(i: nat, j: nat)
    requires
        i <= j,
    ensures
        1 <= pow256(i) <= pow256(j),
    decreases j,
{
    if j > 0 {
        if i < j {
            lemma_pow256_mono(i, (j - 1) as nat);
        } else {
            lemma_pow256_mono(0, (j - 1) as nat);
        }
    }
}

/// `n` little-endian bytes stand for a number below `256^n`.
pub proof fn lemma_le_value_bound(s: Seq<u8>)
    ensures
        le_value(s) < pow256(s.len()),
    decreases s.len(),
{
    if s.len() > 0 {
        lemma_le_value_bound(s.skip(1));
        let t = le_value(s.skip(1));
        let p = pow256((s.len() - 1) as nat);
        assert(s[0] as nat + 256 * t < 256 * p) by (nonlinear_arith)
            requires
                t < p,
                s[0] < 256,
        ;
    }
}

/// Writes the `width` little-endian bytes of `v`.
fn marshal_le(v: u64, width: usize, writer: &mut &mut [u8]) -> (r: Result<(), Error>)
    requires
        width <= 8,
    ensures
        emitted(r, old(writer)@, final(writer)@, final(*old(writer))@, final(*final(writer))@,
            le_bytes(v as nat, width as nat)),
        r is Err ==> *final(writer) == *old(writer),
{
    let mut buf: Vec<u8> = Vec::new();
    let mut x: u64 = v;
    let mut i: usize = 0;
    while i < width
        invariant
            i <= width,
            buf@ + le_bytes(x as nat, (width - i) as nat) == le_bytes(v as nat, width as nat),
        decreases width - i,
    {
        let ghost prev = buf@;
        buf.push((x % 256) as u8);
        assert(prev + le_bytes(x as nat, (width - i) as nat)
            == buf@ + le_bytes((x / 256) as nat, (width - i - 1) as nat));
        x = x / 256;
        i = i + 1;
    }
    write_to_slice(writer, buf.as_slice())
}

/// Reads `width` little-endian bytes. The cursor moves only on success.
fn unmarshal_le(reader: &mut &[u8], width: usize) -> (r: Result<u64, Error>)
    requires
        width <= 8,
    ensures
        match parse_fixed(old(reader)@, width as nat) {
            Ok((x, n)) => r == Ok::<u64, Error>(x as u64) && x < pow256(width as nat)
                && final(reader)@ == old(reader)@.skip(n as int),
            Err(e) => r == Err::<u64, Error>(e) && final(reader)@ == old(reader)@,
        },
{
    let bytes = advance(reader, width)?;
    let mut val: u64 = 0;
    let mut i: usize = width;
    proof {
        lemma_pow_values();
    }
    while i > 0
        invariant
            i <= width,
            width <= 8,
            bytes@.len() == width,
            val == le_value(bytes@.skip(i as int)),
            val < pow256((width - i) as nat),
        decreases i,
    {
        i = i - 1;
        proof {
            assert(bytes@.skip(i as int).skip(1) == bytes@.skip(i + 1));
            lemma_pow256_mono((width - i - 1) as nat, 7);
            lemma_pow_values();
            assert(bytes@[i as int] + 256 * val < 256 * pow256((width - i - 1) as nat)) by (nonlinear_arith)
                requires
                    val < pow256((width - i - 1) as nat),
                    bytes@[i as int] < 256,
            ;
        }
        val = bytes[i] as u64 + 256 * val;
    }
    proof {
        lemma_le_value_bound(bytes@);
        assert(bytes@.skip(0) == bytes@);
    }
    Ok(val)
}

/// Returns the number of bytes of a marshalled `u8`.
pub fn size_u8() -> (r: usize)
    ensures
        r == 1,
{
    1
}

/// Writes a byte.
pub fn marshal_u8(v: u8, writer: &mut &mut [u8]) -> (r: Result<(), Error>)
    ensures
        emitted(r, old(writer)@, final(writer)@, final(*old(writer))@, final(*final(writer))@, seq![v]),
        r is Err ==> *final(writer) == *old(writer),
{
    let b: [u8; 1] = [v];
    let r = write_to_slice(writer, &b);
    assert(b@ == seq![v]);
    r
}

/// Reads a byte. The cursor moves only on success.
pub fn unmarshal_u8(reader: &mut &[u8]) -> (r: Result<u8, Error>)
    ensures
        decoded(r, parse_u8(old(reader)@), old(reader)@, final(reader)@),
        r is Err ==> final(reader)@ == old(reader)@,
{
    let head = advance(reader, 1)?;
    Ok(head[0])
}

/// Moves the read cursor past a byte.
pub fn skip_u8(reader: &mut &[u8]) -> (r: Result<(), Error>)
    ensures
        skipped(r, parse_u8(old(reader)@), old(reader)@, final(reader)@),
        r is Err ==> final(reader)@ == old(reader)@,
{
    advance(reader, 1)?;
    Ok(())
}

/// Returns the number of bytes of a marshalled `i8`.
pub fn size_i8() -> (r: usize)
    ensures
        r == 1,
{
    1
}

/// Writes an `i8` as its two's complement byte.
pub fn marshal_i8(v: i8, writer: &mut &mut [u8]) -> (r: Result<(), Error>)
    ensures
        emitted(r, old(writer)@, final(writer)@, final(*old(writer))@, final(*final(writer))@,
            seq![twos(v as int, 1) as u8]),
        r is Err ==> *final(writer) == *old(writer),
{
    proof {
        lemma_pow_values();
    }
    let b: u8 = if v >= 0 {
        v as u8
    } else {
        (v as i16 + 256) as u8
    };
    marshal_u8(b, writer)
}

/// Reads an `i8`. The cursor moves only on success.
pub fn unmarshal_i8(reader: &mut &[u8]) -> (r: Result<i8, Error>)
    ensures
        decoded(r, parse_i8(old(reader)@), old(reader)@, final(reader)@),
        r is Err ==> final(reader)@ == old(reader)@,
{
    proof {
        lemma_pow_values();
    }
    let b = unmarshal_u8(reader)?;
    if b < 128 {
        Ok(b as i8)
    } else {
        Ok((b as i16 - 256) as i8)
    }
}

/// Moves the read cursor past an `i8`.
pub fn skip_i8(reader: &mut &[u8]) -> (r: Result<(), Error>)
    ensures
        skipped(r, parse_i8(old(reader)@), old(reader)@, final(reader)@),
        r is Err ==> final(reader)@ == old(reader)@,
{
    skip_u8(reader)
}

/// Returns the number of bytes of a marshalled `bool`.
pub fn size_bool() -> (r: usize)
    ensures
        r == 1,
{
    1
}

/// Writes a boolean: 1 for true, 0 for false.
pub fn marshal_bool(v: bool, writer: &mut &mut [u8]) -> (r: Result<(), Error>)
    ensures
        emitted(r, old(writer)@, final(writer)@, final(*old(writer))@, final(*final(writer))@,
            seq![bool_byte(v)]),
        r is Err ==> *final(writer) == *old(writer),
{
    marshal_u8(if v { 1 } else { 0 }, writer)
}

/// Reads a boolean: a 1 is true, every other byte false.
pub fn unmarshal_bool(reader: &mut &[u8]) -> (r: Result<bool, Error>)
    ensures
        decoded(r, parse_bool(old(reader)@), old(reader)@, final(reader)@),
        r is Err ==> final(reader)@ == old(reader)@,
{
    let val = unmarshal_u8(reader)?;
    Ok(val == 1)
}

/// Moves the read cursor past a boolean.
pub fn skip_bool(reader: &mut &[u8]) -> (r: Result<(), Error>)
    ensures
        skipped(r, parse_bool(old(reader)@), old(reader)@, final(reader)@),
        r is Err ==> final(reader)@ == old(reader)@,
{
    skip_u8(reader)
}

/// Returns the number of bytes of a marshalled `u16`.
pub fn size_u16() -> (r: usize)
    ensures
        r == 2,
{
    2
}

/// Writes a `u16` as its 2 bytes, little-endian.
pub fn marshal_u16(v: u16, writer: &mut &mut [u8]) -> (r: Result<(), Error>)
    ensures
        emitted(r, old(writer)@, final(writer)@, final(*old(writer))@, final(*final(writer))@, u16_bytes(v)),
        r is Err ==> *final(writer) == *old(writer),
{
    marshal_le(v as u64, 2, writer)
}

/// Reads a `u16`. The cursor moves only on success.
pub fn unmarshal_u16(reader: &mut &[u8]) -> (r: Result<u16, Error>)
    ensures
        decoded(r, parse_u16(old(reader)@), old(reader)@, final(reader)@),
        r is Err ==> final(reader)@ == old(reader)@,
{
    proof {
        lemma_pow_values();
    }
    let x = unmarshal_le(reader, 2)?;
    Ok(x as u16)
}

/// Moves the read cursor past a `u16`.
pub fn skip_u16(reader: &mut &[u8]) -> (r: Result<(), Error>)
    ensures
        skipped(r, parse_u16(old(reader)@), old(reader)@, final(reader)@),
        r is Err ==> final(reader)@ == old(reader)@,
{
    advance(reader, 2)?;
    Ok(())
}

/// Returns the number of bytes of a marshalled `u32`.
pub fn size_u32() -> (r: usize)
    ensures
        r == 4,
{
    4
}

/// Writes a `u32` as its 4 bytes, little-endian.
pub fn marshal_u32(v: u32, writer: &mut &mut [u8]) -> (r: Result<(), Error>)
    ensures
        emitted(r, old(writer)@, final(writer)@, final(*old(writer))@, final(*final(writer))@, u32_bytes(v)),
        r is Err ==> *final(writer) == *old(writer),
{
    marshal_le(v as u64, 4, writer)
}

/// Reads a `u32`. The cursor moves only on success.
pub fn unmarshal_u32(reader: &mut &[u8]) -> (r: Result<u32, Error>)
    ensures
        decoded(r, parse_u32(old(reader)@), old(reader)@, final(reader)@),
        r is Err ==> final(reader)@ == old(reader)@,
{
    proof {
        lemma_pow_values();
    }
    let x = unmarshal_le(reader, 4)?;
    Ok(x as u32)
}

/// Moves the read cursor past a `u32`.
pub fn skip_u32(reader: &mut &[u8]) -> (r: Result<(), Error>)
    ensures
        skipped(r, parse_u32(old(reader)@), old(reader)@, final(reader)@),
        r is Err ==> final(reader)@ == old(reader)@,
{
    advance(reader, 4)?;
    Ok(())
}

/// Returns the number of bytes of a marshalled `u64`.
pub fn size_u64() -> (r: usize)
    ensures
        r == 8,
{
    8
}

/// Writes a `u64` as its 8 bytes, little-endian.
pub fn marshal_u64(v: u64, writer: &mut &mut [u8]) -> (r: Result<(), Error>)
    ensures
        emitted(r, old(writer)@, final(writer)@, final(*old(writer))@, final(*final(writer))@, u64_bytes(v)),
        r is Err ==> *final(writer) == *old(writer),
{
    marshal_le(v as u64, 8, writer)
}

/// Reads a `u64`. The cursor moves only on success.
pub fn unmarshal_u64(reader: &mut &[u8]) -> (r: Result<u64, Error>)
    ensures
        decoded(r, parse_u64(old(reader)@), old(reader)@, final(reader)@),
        r is Err ==> final(reader)@ == old(reader)@,
{
    proof {
        lemma_pow_values();
    }
    let x = unmarshal_le(reader, 8)?;
    Ok(x as u64)
}

/// Moves the read cursor past a `u64`.
pub fn skip_u64(reader: &mut &[u8]) -> (r: Result<(), Error>)
    ensures
        skipped(r, parse_u64(old(reader)@), old(reader)@, final(reader)@),
        r is Err ==> final(reader)@ == old(reader)@,
{
    advance(reader, 8)?;
    Ok(())
}

/// Returns the number of bytes of a marshalled `i16`.
pub fn size_i16() -> (r: usize)
    ensures
        r == 2,
{
    2
}

/// Writes an `i16` as its 2 two's complement bytes, little-endian.
pub fn marshal_i16(v: i16, writer: &mut &mut [u8]) -> (r: Result<(), Error>)
    ensures
        emitted(r, old(writer)@, final(writer)@, final(*old(writer))@, final(*final(writer))@, i16_bytes(v)),
        r is Err ==> *final(writer) == *old(writer),
{
    proof {
        lemma_pow_values();
    }
    let x: u64 = if v >= 0 {
        v as u64
    } else {
        0xffff - ((-(v + 1)) as u64)
    };
    marshal_le(x, 2, writer)
}

/// Reads an `i16`. The cursor moves only on success.
pub fn unmarshal_i16(reader: &mut &[u8]) -> (r: Result<i16, Error>)
    ensures
        decoded(r, parse_i16(old(reader)@), old(reader)@, final(reader)@),
        r is Err ==> final(reader)@ == old(reader)@,
{
    proof {
        lemma_pow_values();
    }
    let x = unmarshal_le(reader, 2)?;
    if x < 0x8000 {
        Ok(x as i16)
    } else {
        Ok(-((0xffff - x) as i16) - 1)
    }
}

/// Moves the read cursor past an `i16`.
pub fn skip_i16(reader: &mut &[u8]) -> (r: Result<(), Error>)
    ensures
        skipped(r, parse_i16(old(reader)@), old(reader)@, final(reader)@),
        r is Err ==> final(reader)@ == old(reader)@,
{
    advance(reader, 2)?;
    Ok(())
}

/// Returns the number of bytes of a marshalled `i32`.
pub fn size_i32() -> (r: usize)
    ensures
        r == 4,
{
    4
}

/// Writes an `i32` as its 4 two's complement bytes, little-endian.
pub fn marshal_i32(v: i32, writer: &mut &mut [u8]) -> (r: Result<(), Error>)
    ensures
        emitted(r, old(writer)@, final(writer)@, final(*old(writer))@, final(*final(writer))@, i32_bytes(v)),
        r is Err ==> *final(writer) == *old(writer),
{
    proof {
        lemma_pow_values();
    }
    let x: u64 = if v >= 0 {
        v as u64
    } else {
        0xffff_ffff - ((-(v + 1)) as u64)
    };
    marshal_le(x, 4, writer)
}

/// Reads an `i32`. The cursor moves only on success.
pub fn unmarshal_i32(reader: &mut &[u8]) -> (r: Result<i32, Error>)
    ensures
        decoded(r, parse_i32(old(reader)@), old(reader)@, final(reader)@),
        r is Err ==> final(reader)@ == old(reader)@,
{
    proof {
        lemma_pow_values();
    }
    let x = unmarshal_le(reader, 4)?;
    if x < 0x8000_0000 {
        Ok(x as i32)
    } else {
        Ok(-((0xffff_ffff - x) as i32) - 1)
    }
}

/// Moves the read cursor past an `i32`.
pub fn skip_i32(reader: &mut &[u8]) -> (r: Result<(), Error>)
    ensures
        skipped(r, parse_i32(old(reader)@), old(reader)@, final(reader)@),
        r is Err ==> final(reader)@ == old(reader)@,
{
    advance(reader, 4)?;
    Ok(())
}

/// Returns the number of bytes of a marshalled `i64`.
pub fn size_i64() -> (r: usize)
    ensures
        r == 8,
{
    8
}

/// Writes an `i64` as its 8 two's complement bytes, little-endian.
pub fn marshal_i64(v: i64, writer: &mut &mut [u8]) -> (r: Result<(), Error>)
    ensures
        emitted(r, old(writer)@, final(writer)@, final(*old(writer))@, final(*final(writer))@, i64_bytes(v)),
        r is Err ==> *final(writer) == *old(writer),
{
    proof {
        lemma_pow_values();
    }
    let x: u64 = if v >= 0 {
        v as u64
    } else {
        0xffff_ffff_ffff_ffff - ((-(v + 1)) as u64)
    };
    marshal_le(x, 8, writer)
}

/// Reads an `i64`. The cursor moves only on success.
pub fn unmarshal_i64(reader: &mut &[u8]) -> (r: Result<i64, Error>)
    ensures
        decoded(r, parse_i64(old(reader)@), old(reader)@, final(reader)@),
        r is Err ==> final(reader)@ == old(reader)@,
{
    proof {
        lemma_pow_values();
    }
    let x = unmarshal_le(reader, 8)?;
    if x < 0x8000_0000_0000_0000 {
        Ok(x as i64)
    } else {
        Ok(-((0xffff_ffff_ffff_ffff - x) as i64) - 1)
    }
}

/// Moves the read cursor past an `i64`.
pub fn skip_i64(reader: &mut &[u8]) -> (r: Result<(), Error>)
    ensures
        skipped(r, parse_i64(old(reader)@), old(reader)@, final(reader)@),
        r is Err ==> final(reader)@ == old(reader)@,
{
    advance(reader, 8)?;
    Ok(())
}

} // verus!
