//! What holds across calls: decoding the bytes that a codec writes gives the
//! value back and consumes exactly those bytes, skipping moves a cursor as
//! far as reading does, and the zigzag mapping is undone by its inverse.
use vstd::prelude::*;
use vstd::utf8::{valid_utf8, encode_utf8, decode_utf8, encode_utf8_valid_utf8, encode_utf8_decode_utf8};
use crate::error::Error;
use crate::cursor::{emitted, decoded, skipped};
use crate::varint::{
    pow128, uint_bytes, scan_uint, parse_uint, zigzag_of, unzigzag_of, int_bytes, parse_int, parse_usize, parse_isize,
    lemma_pow128_values, lemma_pow128_mono, lemma_uint_bytes_len,
};
use crate::fixed::{
    pow256, le_bytes, le_value, parse_fixed, twos, bool_byte, parse_u8, parse_i8, parse_bool, parse_u16, parse_u32,
    parse_u64, parse_i16, parse_i32, parse_i64, u16_bytes, u32_bytes, u64_bytes, i16_bytes, i32_bytes, i64_bytes,
    lemma_pow_values,
};
use crate::text::{framed, string_bytes, parse_bytes, string_read};
use crate::time::{Timestamp, wire_nanos, time_bytes, parse_time};

verus! {

/// The varint scan reads back the groups of `v` that stand at index `i`,
/// adding them to `acc`.
proof fn lemma_scan_uint_bytes(v: u64, s: Seq<u8>, i: nat, acc: nat, rest: Seq<u8>)
    requires
        i <= 9,
        i == 0 || v >= 1,
        s.skip(i as int) == uint_bytes(v) + rest,
        i <= s.len(),
        acc + v * pow128(i) < 0x10000000000000000,
    ensures
        scan_uint(s, i, acc) == Ok::<(u64, nat), Error>(((acc + v * pow128(i)) as u64, i + uint_bytes(v).len())),
    decreases v,
{
    lemma_pow128_values();
    lemma_uint_bytes_len(v, 10);
    assert(v < pow128(10));
    assert((uint_bytes(v) + rest).len() >= 1);
    assert(s.skip(i as int).len() == s.len() - i);
    assert(s.skip(i as int)[0] == s[i as int]);
    assert(s[i as int] == (uint_bytes(v) + rest)[0]);
    if v < 128 {
        if i == 9 && v > 1 {
            assert(v * pow128(9) >= 2 * 0x8000000000000000) by (nonlinear_arith)
                requires
                    v >= 2,
                    pow128(9) == 0x8000000000000000,
            ;
        }
    } else {
        let q = (v / 128) as u64;
        let m = (v % 128) as nat;
        let acc2 = acc + m * pow128(i);
        assert(s.skip((i + 1) as int) == uint_bytes(q) + rest) by {
            assert(s.skip((i + 1) as int) == s.skip(i as int).skip(1));
            assert((uint_bytes(v) + rest).skip(1) == uint_bytes(q) + rest);
        }
        assert(pow128(i + 1) == 128 * pow128(i));
        assert(acc2 + q * pow128(i + 1) == acc + v * pow128(i)) by (nonlinear_arith)
            requires
                acc2 == acc + m * pow128(i),
                v == 128 * q + m,
                pow128(i + 1) == 128 * pow128(i),
        ;
        if i + 1 > 9 {
            lemma_pow128_mono(10, i + 1);
            assert(q * pow128(i + 1) >= pow128(10)) by (nonlinear_arith)
                requires
                    q >= 1,
                    pow128(i + 1) >= pow128(10),
            ;
        }
        lemma_scan_uint_bytes(q, s, i + 1, acc2, rest);
    }
}

/// Round trip of the varint: the bytes of `v` decode to `v`, taking all of
/// them and nothing after them.
pub proof fn law_uint_round_trip(v: u64, rest: Seq<u8>)
    ensures
        parse_uint(uint_bytes(v) + rest) == Ok::<(u64, nat), Error>((v, uint_bytes(v).len())),
{
    let s = uint_bytes(v) + rest;
    assert(s.skip(0) == s);
    assert(pow128(0) == 1);
    lemma_scan_uint_bytes(v, s, 0, 0, rest);
}

/// A varint takes one byte for 0 and otherwise the number `k` of 7-bit
/// groups that the value needs: `128^(k-1) <= v < 128^k`.
pub proof fn law_uint_size(v: u64)
    ensures
        v == 0 ==> uint_bytes(v).len() == 1,
        v > 0 ==> pow128((uint_bytes(v).len() - 1) as nat) <= v < pow128(uint_bytes(v).len()),
    decreases v,
{
    reveal_with_fuel(pow128, 2);
    if v >= 128 {
        let q = (v / 128) as u64;
        law_uint_size(q);
        let k = uint_bytes(q).len();
        assert(uint_bytes(v).len() == k + 1);
        assert(pow128(k + 1) == 128 * pow128(k));
        assert(pow128(k) == 128 * pow128((k - 1) as nat));
        assert(pow128((k - 1) as nat) <= q < pow128(k));
        assert(128 * pow128((k - 1) as nat) <= v < 128 * pow128(k)) by (nonlinear_arith)
            requires
                pow128((k - 1) as nat) <= q < pow128(k),
                q == v / 128,
        ;
    }
}

/// The zigzag mapping is undone by its inverse, for every `i64`.
pub proof fn law_zigzag_round_trip(v: i64)
    ensures
        unzigzag_of(zigzag_of(v)) == v,
{
}

/// Round trip of a signed integer.
pub proof fn law_int_round_trip(v: i64, rest: Seq<u8>)
    ensures
        parse_int(int_bytes(v) + rest) == Ok::<(i64, nat), Error>((v, int_bytes(v).len())),
{
    law_uint_round_trip(zigzag_of(v), rest);
    law_zigzag_round_trip(v);
}

/// Round trip of a `usize`, carried as a 64-bit varint.
pub proof fn law_usize_round_trip(v: usize, rest: Seq<u8>)
    ensures
        parse_usize(uint_bytes(v as u64) + rest) == Ok::<(usize, nat), Error>((v, uint_bytes(v as u64).len())),
{
    law_uint_round_trip(v as u64, rest);
}

/// Round trip of an `isize`, carried as a 64-bit zigzag varint.
pub proof fn law_isize_round_trip(v: isize, rest: Seq<u8>)
    ensures
        parse_isize(int_bytes(v as i64) + rest) == Ok::<(isize, nat), Error>((v, int_bytes(v as i64).len())),
{
    law_int_round_trip(v as i64, rest);
}

/// Little-endian bytes stand for the number they were made from, if it is
/// below `256^n`.
pub proof fn lemma_le_round_trip(x: nat, n: nat)
    requires
        x < pow256(n),
    ensures
        le_bytes(x, n).len() == n,
        le_value(le_bytes(x, n)) == x,
    decreases n,
{
    if n > 0 {
        let p = pow256((n - 1) as nat);
        assert(x / 256 < p) by (nonlinear_arith)
            requires
                x < 256 * p,
        ;
        lemma_le_round_trip(x / 256, (n - 1) as nat);
        assert(le_bytes(x, n).skip(1) == le_bytes(x / 256, (n - 1) as nat));
    }
}

/// Reading `n` little-endian bytes from the front of the bytes of `x`,
/// followed by anything, gives `x` back.
proof fn lemma_fixed_round_trip(x: nat, n: nat, rest: Seq<u8>)
    requires
        x < pow256(n),
    ensures
        parse_fixed(le_bytes(x, n) + rest, n) == Ok::<(nat, nat), Error>((x, n)),
{
    lemma_le_round_trip(x, n);
    assert((le_bytes(x, n) + rest).take(n as int) == le_bytes(x, n));
}

/// Round trip of a byte.
pub proof fn law_u8_round_trip(v: u8, rest: Seq<u8>)
    ensures
        parse_u8(seq![v] + rest) == Ok::<(u8, nat), Error>((v, 1)),
{
}

/// Round trip of an `i8`.
pub proof fn law_i8_round_trip(v: i8, rest: Seq<u8>)
    ensures
        parse_i8(seq![twos(v as int, 1) as u8] + rest) == Ok::<(i8, nat), Error>((v, 1)),
{
    lemma_pow_values();
}

/// Round trip of a boolean.
pub proof fn law_bool_round_trip(v: bool, rest: Seq<u8>)
    ensures
        parse_bool(seq![bool_byte(v)] + rest) == Ok::<(bool, nat), Error>((v, 1)),
{
}

/// Round trip of a `u16`.
pub proof fn law_u16_round_trip(v: u16, rest: Seq<u8>)
    ensures
        parse_u16(u16_bytes(v) + rest) == Ok::<(u16, nat), Error>((v, u16_bytes(v).len())),
{
    lemma_pow_values();
    lemma_fixed_round_trip(v as nat, 2, rest);
    lemma_le_round_trip(v as nat, 2);
}

/// Round trip of a `u32`.
pub proof fn law_u32_round_trip(v: u32, rest: Seq<u8>)
    ensures
        parse_u32(u32_bytes(v) + rest) == Ok::<(u32, nat), Error>((v, u32_bytes(v).len())),
{
    lemma_pow_values();
    lemma_fixed_round_trip(v as nat, 4, rest);
    lemma_le_round_trip(v as nat, 4);
}

/// Round trip of a `u64`.
pub proof fn law_u64_round_trip(v: u64, rest: Seq<u8>)
    ensures
        parse_u64(u64_bytes(v) + rest) == Ok::<(u64, nat), Error>((v, u64_bytes(v).len())),
{
    lemma_pow_values();
    lemma_fixed_round_trip(v as nat, 8, rest);
    lemma_le_round_trip(v as nat, 8);
}

/// Round trip of an `i16`.
pub proof fn law_i16_round_trip(v: i16, rest: Seq<u8>)
    ensures
        parse_i16(i16_bytes(v) + rest) == Ok::<(i16, nat), Error>((v, i16_bytes(v).len())),
{
    lemma_pow_values();
    lemma_fixed_round_trip(twos(v as int, 2), 2, rest);
    lemma_le_round_trip(twos(v as int, 2), 2);
}

/// Round trip of an `i32`.
pub proof fn law_i32_round_trip(v: i32, rest: Seq<u8>)
    ensures
        parse_i32(i32_bytes(v) + rest) == Ok::<(i32, nat), Error>((v, i32_bytes(v).len())),
{
    lemma_pow_values();
    lemma_fixed_round_trip(twos(v as int, 4), 4, rest);
    lemma_le_round_trip(twos(v as int, 4), 4);
}

/// Round trip of an `i64`.
pub proof fn law_i64_round_trip(v: i64, rest: Seq<u8>)
    ensures
        parse_i64(i64_bytes(v) + rest) == Ok::<(i64, nat), Error>((v, i64_bytes(v).len())),
{
    lemma_pow_values();
    lemma_fixed_round_trip(twos(v as int, 8), 8, rest);
    lemma_le_round_trip(twos(v as int, 8), 8);
}

/// Round trip of a timestamp: it comes back as itself, or as the epoch if
/// its nanoseconds did not fit in an `i64`.
pub proof fn law_time_round_trip(t: Timestamp, rest: Seq<u8>)
    ensures
        parse_time(time_bytes(t) + rest)
            == Ok::<(Timestamp, nat), Error>(((Timestamp { nanos: Some(wire_nanos(t)) }), time_bytes(t).len())),
        t.nanos is Some ==> (Timestamp { nanos: Some(wire_nanos(t)) }) == t,
{
    law_i64_round_trip(wire_nanos(t), rest);
}

/// Round trip of a byte buffer.
pub proof fn law_bytes_round_trip(b: Seq<u8>, rest: Seq<u8>)
    requires
        b.len() <= u64::MAX,
    ensures
        parse_bytes(framed(b) + rest) == Ok::<(Seq<u8>, nat), Error>((b, framed(b).len())),
{
    let u = uint_bytes(b.len() as u64);
    law_uint_round_trip(b.len() as u64, b + rest);
    assert(framed(b) + rest == u + (b + rest));
    assert((framed(b) + rest).subrange(u.len() as int, (u.len() + b.len()) as int) == b);
}

/// Round trip of a string: its bytes are read back whole, they are
/// well-formed UTF-8, and they decode to the same text.
pub proof fn law_string_round_trip(s: Seq<char>, rest: Seq<u8>)
    requires
        encode_utf8(s).len() <= u64::MAX,
    ensures
        parse_bytes(string_bytes(s) + rest) == Ok::<(Seq<u8>, nat), Error>((encode_utf8(s), string_bytes(s).len())),
        valid_utf8(encode_utf8(s)),
        decode_utf8(encode_utf8(s)) == s,
{
    law_bytes_round_trip(encode_utf8(s), rest);
    encode_utf8_valid_utf8(s);
    encode_utf8_decode_utf8(s);
}

/// A write into a buffer sized for it (its length that of the bytes, as
/// the size functions give it) succeeds and leaves no room behind.
pub proof fn law_sized_write_fills(
    r: Result<(), Error>,
    start: Seq<u8>,
    rest: Seq<u8>,
    filled: Seq<u8>,
    tail: Seq<u8>,
    out: Seq<u8>,
)
    requires
        emitted(r, start, rest, filled, tail, out),
        start.len() == out.len(),
    ensures
        r is Ok,
        rest.len() == 0,
        filled == out + tail,
{
}

/// A read of the exact bytes of one value, whose decoding takes them all,
/// leaves nothing unread.
pub proof fn law_exact_read_drains<T>(r: Result<T, Error>, p: Result<(T, nat), Error>, start: Seq<u8>, rest: Seq<u8>)
    requires
        decoded(r, p, start, rest),
        p matches Ok((_, n)) && n == start.len(),
    ensures
        r is Ok,
        rest.len() == 0,
{
}

/// Skipping a value moves a read cursor exactly as far as reading it does,
/// and fails exactly when reading does, with the same error.
pub proof fn law_skip_matches_read<T>(
    p: Result<(T, nat), Error>,
    start: Seq<u8>,
    r_read: Result<T, Error>,
    rest_read: Seq<u8>,
    r_skip: Result<(), Error>,
    rest_skip: Seq<u8>,
)
    requires
        decoded(r_read, p, start, rest_read),
        skipped(r_skip, p, start, rest_skip),
    ensures
        r_read is Ok <==> r_skip is Ok,
        r_read is Ok ==> rest_read == rest_skip,
        r_read matches Err(e) ==> r_skip == Err::<(), Error>(e),
{
}

/// Skipping a string moves a read cursor as far as reading it does, on
/// input whose payload is well-formed text (as the bytes of every string
/// are): skipping checks no text.
pub proof fn law_string_skip_matches_read<'a>(
    start: Seq<u8>,
    r_read: Result<&'a str, Error>,
    rest_read: Seq<u8>,
    r_skip: Result<(), Error>,
    rest_skip: Seq<u8>,
)
    requires
        string_read(r_read, start, rest_read),
        skipped(r_skip, parse_bytes(start), start, rest_skip),
        parse_bytes(start) matches Ok((b, _)) ==> valid_utf8(b),
    ensures
        r_read is Ok <==> r_skip is Ok,
        r_read is Ok ==> rest_read == rest_skip,
{
}

/// Skipping a `usize` moves a read cursor as far as reading it does, on
/// input whose varint fits a `usize` (as the bytes of every `usize` do).
pub proof fn law_usize_skip_matches_read(
    start: Seq<u8>,
    r_read: Result<usize, Error>,
    rest_read: Seq<u8>,
    r_skip: Result<(), Error>,
    rest_skip: Seq<u8>,
)
    requires
        decoded(r_read, parse_usize(start), start, rest_read),
        skipped(r_skip, parse_uint(start), start, rest_skip),
        parse_uint(start) matches Ok((u, _)) ==> u <= usize::MAX,
    ensures
        r_read is Ok <==> r_skip is Ok,
        r_read is Ok ==> rest_read == rest_skip,
{
}

} // verus!
