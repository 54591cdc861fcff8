//! Variable-length integers: the base-128 varint for `u64`, the zigzag
//! mapping that carries `i64` on it, and the platform-width integers, which
//! travel in the 64-bit form.
use vstd::prelude::*;
use crate::error::Error;
use crate::cursor::{advance, write_to_slice, emitted, decoded, skipped};

verus! {

/// The most bytes that a 64-bit varint occupies.
pub const MAX_VARINT_LEN_64: usize = 10;

/// 128 to the power `i`: the weight of the `i`-th group of a varint.
pub open spec fn pow128(i: nat) -> nat
    decreases i,
{
    if i == 0 {
        1
    } else {
        128 * pow128((i - 1) as nat)
    }
}

/// The varint bytes of `v`: its 7-bit groups, least significant first, with
/// the continuation bit 0x80 set on every byte but the last.
pub open spec fn uint_bytes(v: u64) -> Seq<u8>
    decreases v,
{
    if v < 128 {
        seq![v as u8]
    } else {
        seq![(v % 128 + 128) as u8] + uint_bytes((v / 128) as u64)
    }
}

/// Reads the varint groups of `s` from index `i` on, `acc` being the value
/// of the groups before `i`. At most ten groups are read; the tenth may only
/// hold 0 or 1.
pub open spec fn scan_uint(s: Seq<u8>, i: nat, acc: nat) -> Result<(u64, nat), Error>
    decreases 10 - i,
{
    if i >= 10 {
        Err(Error::VarintOverflow)
    } else if i >= s.len() {
        Err(Error::BufferTooSmall)
    } else if s[i as int] < 128 {
        if i == 9 && s[i as int] > 1 {
            Err(Error::VarintOverflow)
        } else {
            Ok(((acc + s[i as int] * pow128(i)) as u64, i + 1))
        }
    } else {
        scan_uint(s, i + 1, acc + ((s[i as int] - 128) as nat) * pow128(i))
    }
}

/// What decoding a varint from the front of `s` gives: the value and the
/// number of bytes it took, or the error.
pub open spec fn parse_uint(s: Seq<u8>) -> Result<(u64, nat), Error> {
    scan_uint(s, 0, 0)
}

/// The zigzag mapping: 0, -1, 1, -2, 2, ... go to 0, 1, 2, 3, 4, ...
pub open spec fn zigzag_of(v: i64) -> u64 {
    if v >= 0 {
        (2 * v) as u64
    } else {
        (-2 * v - 1) as u64
    }
}

/// The inverse of the zigzag mapping.
pub open spec fn unzigzag_of(u: u64) -> i64 {
    if u % 2 == 0 {
        (u / 2) as i64
    } else {
        (-((u / 2) as int) - 1) as i64
    }
}

/// The bytes of a signed integer: the varint of its zigzag image.
pub open spec fn int_bytes(v: i64) -> Seq<u8> {
    uint_bytes(zigzag_of(v))
}

/// What decoding a signed integer from the front of `s` gives.
pub open spec fn parse_int(s: Seq<u8>) -> Result<(i64, nat), Error> {
    match parse_uint(s) {
        Ok((u, n)) => Ok((unzigzag_of(u), n)),
        Err(e) => Err(e),
    }
}

/// What decoding a `usize` from the front of `s` gives: the 64-bit varint,
/// or `OutOfRange` where it does not fit.
pub open spec fn parse_usize(s: Seq<u8>) -> Result<(usize, nat), Error> {
    match parse_uint(s) {
        Ok((u, n)) => if u <= usize::MAX {
            Ok((u as usize, n))
        } else {
            Err(Error::OutOfRange)
        },
        Err(e) => Err(e),
    }
}

/// What decoding an `isize` from the front of `s` gives: the zigzag varint,
/// or `OutOfRange` where it does not fit.
pub open spec fn parse_isize(s: Seq<u8>) -> Result<(isize, nat), Error> {
    match parse_int(s) {
        Ok((v, n)) => if isize::MIN <= v <= isize::MAX {
            Ok((v as isize, n))
        } else {
            Err(Error::OutOfRange)
        },
        Err(e) => Err(e),
    }
}

pub proof fn lemma_pow128_values()
    ensures
        pow128(1) == 128,
        pow128(8) == 0x100000000000000,
        pow128(9) == 0x8000000000000000,
        pow128(10) == 0x400000000000000000,
{
    reveal_with_fuel(pow128, 11);
}

/// The weights grow with the index.
pub proof fn lemma_pow128_mono(i: nat, j: nat)
    requires
        i <= j,
    ensures
        1 <= pow128(i) <= pow128(j),
    decreases j,
{
    if j > 0 {
        if i < j {
            lemma_pow128_mono(i, (j - 1) as nat);
        } else {
            lemma_pow128_mono(0, (j - 1) as nat);
        }
    }
}

/// A value below `128^k` (for `k >= 1`) takes at most `k` varint bytes; every
/// value takes between one and ten.
pub proof fn lemma_uint_bytes_len(v: u64, k: nat)
    requires
        1 <= k,
        v < pow128(k),
    ensures
        1 <= uint_bytes(v).len() <= k,
        uint_bytes(v).len() <= 10,
    decreases v,
{
    lemma_pow128_values();
    if v >= 128 {
        if k == 1 {
            assert(false);
        }
        let k1 = (k - 1) as nat;
        assert(pow128(k) == 128 * pow128(k1));
        assert(v / 128 < pow128(k1)) by (nonlinear_arith)
            requires
                v < 128 * pow128(k1),
        ;
        lemma_uint_bytes_len((v / 128) as u64, k1);
        assert(v < pow128(10)) by {
            assert(v <= u64::MAX);
        }
        lemma_uint_bytes_len((v / 128) as u64, 9);
    }
}

/// Returns the number of bytes that `marshal_uint` writes for `v`.
pub fn size_uint(v: u64) -> (r: usize)
    ensures
        r == uint_bytes(v).len(),
        1 <= r <= MAX_VARINT_LEN_64,
{
    proof {
        lemma_pow128_values();
        lemma_uint_bytes_len(v, 10);
    }
    let mut n: usize = 1;
    let mut x: u64 = v;
    while x >= 128
        invariant
            1 <= n,
            n - 1 + uint_bytes(x).len() == uint_bytes(v).len(),
            uint_bytes(v).len() <= 10,
            1 <= uint_bytes(x).len(),
        decreases x,
    {
        proof {
            lemma_pow128_values();
            lemma_uint_bytes_len((x / 128) as u64, 10);
        }
        x = x / 128;
        n = n + 1;
    }
    n
}

/// Writes `v` as a varint.
pub fn marshal_uint(v: u64, writer: &mut &mut [u8]) -> (r: Result<(), Error>)
    ensures
        emitted(r, old(writer)@, final(writer)@, final(*old(writer))@, final(*final(writer))@, uint_bytes(v)),
        r is Err ==> *final(writer) == *old(writer),
{
    let mut buf: Vec<u8> = Vec::new();
    let mut x: u64 = v;
    while x >= 128
        invariant
            buf@ + uint_bytes(x) == uint_bytes(v),
        decreases x,
    {
        let ghost prev = buf@;
        buf.push((x % 128 + 128) as u8);
        assert(prev + uint_bytes(x) == buf@ + uint_bytes((x / 128) as u64));
        x = x / 128;
    }
    buf.push(x as u8);
    assert(buf@ == uint_bytes(v));
    write_to_slice(writer, buf.as_slice())
}

/// One step of the varint scan over a continuation byte.
proof fn lemma_scan_step(s: Seq<u8>, i: nat, acc: nat)
    requires
        i < 10,
        i < s.len(),
        s[i as int] >= 128,
    ensures
        scan_uint(s, i, acc) == scan_uint(s, i + 1, acc + ((s[i as int] - 128) as nat) * pow128(i)),
{
}

/// Reads a varint. The cursor moves only when a value is returned.
pub fn unmarshal_uint(reader: &mut &[u8]) -> (r: Result<u64, Error>)
    ensures
        decoded(r, parse_uint(old(reader)@), old(reader)@, final(reader)@),
        r is Err ==> final(reader)@ == old(reader)@,
{
    let ghost s = reader@;
    let mut val: u64 = 0;
    let mut mult: u64 = 1;
    let mut i: usize = 0;
    proof {
        lemma_pow128_values();
    }
    loop
        invariant
            s == reader@,
            s == old(reader)@,
            *reader == *old(reader),
            i <= 9,
            mult == pow128(i as nat),
            val < mult,
            mult <= 0x8000000000000000,
            scan_uint(s, 0, 0) == scan_uint(s, i as nat, val as nat),
        decreases 10 - i,
    {
        if i >= reader.len() {
            return Err(Error::BufferTooSmall);
        }
        let byte = reader[i];
        if byte < 128 {
            if i == 9 && byte > 1 {
                return Err(Error::VarintOverflow);
            }
            proof {
                lemma_pow128_values();
                if i < 9 {
                    lemma_pow128_mono(i as nat, 8);
                    assert(val + byte * mult < 0x10000000000000000) by (nonlinear_arith)
                        requires
                            val < mult,
                            byte < 128,
                            mult <= 0x100000000000000,
                    ;
                } else {
                    assert(val + byte * mult < 0x10000000000000000) by (nonlinear_arith)
                        requires
                            val < mult,
                            byte <= 1,
                            mult == 0x8000000000000000,
                    ;
                }
            }
            let _ = advance(reader, i + 1);
            return Ok(val + byte as u64 * mult);
        }
        proof {
            lemma_scan_step(s, i as nat, val as nat);
        }
        if i == 9 {
            return Err(Error::VarintOverflow);
        }
        proof {
            lemma_pow128_values();
            lemma_pow128_mono(i as nat, 8);
            assert(val + (byte - 128) * mult < 128 * mult) by (nonlinear_arith)
                requires
                    val < mult,
                    byte < 256,
                    byte >= 128,
            ;
            lemma_pow128_mono((i + 1) as nat, 9);
        }
        val = val + (byte - 128) as u64 * mult;
        mult = mult * 128;
        i = i + 1;
    }
}

/// Moves the read cursor past one varint, without decoding it.
pub fn skip_uint(reader: &mut &[u8]) -> (r: Result<(), Error>)
    ensures
        skipped(r, parse_uint(old(reader)@), old(reader)@, final(reader)@),
        r is Err ==> final(reader)@ == old(reader)@,
{
    let ghost s = reader@;
    let ghost mut acc: nat = 0;
    let mut i: usize = 0;
    while i < MAX_VARINT_LEN_64
        invariant
            s == reader@,
            s == old(reader)@,
            *reader == *old(reader),
            i <= 10,
            scan_uint(s, 0, 0) == scan_uint(s, i as nat, acc),
        decreases 10 - i,
    {
        if i >= reader.len() {
            return Err(Error::BufferTooSmall);
        }
        let byte = reader[i];
        if byte < 128 {
            if i == MAX_VARINT_LEN_64 - 1 && byte > 1 {
                return Err(Error::VarintOverflow);
            }
            let _ = advance(reader, i + 1);
            return Ok(());
        }
        proof {
            lemma_scan_step(s, i as nat, acc);
            acc = acc + ((byte - 128) as nat) * pow128(i as nat);
        }
        i = i + 1;
    }
    Err(Error::VarintOverflow)
}

/// Maps a signed integer onto an unsigned one, small magnitudes to small
/// values: `(v << 1) ^ (v >> 63)`.
pub fn encode_zigzag(v: i64) -> (r: u64)
    ensures
        r == zigzag_of(v),
{
    if v >= 0 {
        (v as u64) * 2
    } else {
        ((-(v + 1)) as u64) * 2 + 1
    }
}

/// Undoes `encode_zigzag`: `(u >> 1) ^ -(u & 1)`.
pub fn decode_zigzag(u: u64) -> (r: i64)
    ensures
        r == unzigzag_of(u),
{
    if u % 2 == 0 {
        (u / 2) as i64
    } else {
        -((u / 2) as i64) - 1
    }
}

/// Returns the number of bytes that `marshal_int` writes for `v`.
pub fn size_int(v: i64) -> (r: usize)
    ensures
        r == int_bytes(v).len(),
        1 <= r <= MAX_VARINT_LEN_64,
{
    size_uint(encode_zigzag(v))
}

/// Writes `v` as the varint of its zigzag image.
pub fn marshal_int(v: i64, writer: &mut &mut [u8]) -> (r: Result<(), Error>)
    ensures
        emitted(r, old(writer)@, final(writer)@, final(*old(writer))@, final(*final(writer))@, int_bytes(v)),
        r is Err ==> *final(writer) == *old(writer),
{
    marshal_uint(encode_zigzag(v), writer)
}

/// Reads a zigzag varint. The cursor moves only when a value is returned.
pub fn unmarshal_int(reader: &mut &[u8]) -> (r: Result<i64, Error>)
    ensures
        decoded(r, parse_int(old(reader)@), old(reader)@, final(reader)@),
        r is Err ==> final(reader)@ == old(reader)@,
{
    match unmarshal_uint(reader) {
        Ok(u) => Ok(decode_zigzag(u)),
        Err(e) => Err(e),
    }
}

/// Moves the read cursor past one zigzag varint.
pub fn skip_int(reader: &mut &[u8]) -> (r: Result<(), Error>)
    ensures
        skipped(r, parse_int(old(reader)@), old(reader)@, final(reader)@),
        r is Err ==> final(reader)@ == old(reader)@,
{
    skip_uint(reader)
}

/// Returns the number of bytes that `marshal_usize` writes for `v`.
pub fn size_usize(v: usize) -> (r: usize)
    ensures
        r == uint_bytes(v as u64).len(),
{
    size_uint(v as u64)
}

/// Writes `v` as a 64-bit varint, whatever the width of `usize`.
pub fn marshal_usize(v: usize, writer: &mut &mut [u8]) -> (r: Result<(), Error>)
    ensures
        emitted(r, old(writer)@, final(writer)@, final(*old(writer))@, final(*final(writer))@, uint_bytes(v as u64)),
        r is Err ==> *final(writer) == *old(writer),
{
    marshal_uint(v as u64, writer)
}

/// Reads a 64-bit varint into a `usize`; `OutOfRange` where it does not fit.
pub fn unmarshal_usize(reader: &mut &[u8]) -> (r: Result<usize, Error>)
    ensures
        decoded(r, parse_usize(old(reader)@), old(reader)@, final(reader)@),
{
    let val = unmarshal_uint(reader)?;
    if val <= usize::MAX as u64 {
        Ok(val as usize)
    } else {
        Err(Error::OutOfRange)
    }
}

/// Moves the read cursor past a marshalled `usize`.
pub fn skip_usize(reader: &mut &[u8]) -> (r: Result<(), Error>)
    ensures
        skipped(r, parse_uint(old(reader)@), old(reader)@, final(reader)@),
        r is Err ==> final(reader)@ == old(reader)@,
{
    skip_uint(reader)
}

/// Returns the number of bytes that `marshal_isize` writes for `v`.
pub fn size_isize(v: isize) -> (r: usize)
    ensures
        r == int_bytes(v as i64).len(),
{
    size_int(v as i64)
}

/// Writes `v` as a 64-bit zigzag varint, whatever the width of `isize`.
pub fn marshal_isize(v: isize, writer: &mut &mut [u8]) -> (r: Result<(), Error>)
    ensures
        emitted(r, old(writer)@, final(writer)@, final(*old(writer))@, final(*final(writer))@, int_bytes(v as i64)),
        r is Err ==> *final(writer) == *old(writer),
{
    marshal_int(v as i64, writer)
}

/// Reads a 64-bit zigzag varint into an `isize`; `OutOfRange` where it does
/// not fit.
pub fn unmarshal_isize(reader: &mut &[u8]) -> (r: Result<isize, Error>)
    ensures
        decoded(r, parse_isize(old(reader)@), old(reader)@, final(reader)@),
{
    let val = unmarshal_int(reader)?;
    if isize::MIN as i64 <= val && val <= isize::MAX as i64 {
        Ok(val as isize)
    } else {
        Err(Error::OutOfRange)
    }
}

/// Moves the read cursor past a marshalled `isize`.
pub fn skip_isize(reader: &mut &[u8]) -> (r: Result<(), Error>)
    ensures
        skipped(r, parse_int(old(reader)@), old(reader)@, final(reader)@),
        r is Err ==> final(reader)@ == old(reader)@,
{
    skip_int(reader)
}

} // verus!
