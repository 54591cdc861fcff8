//! Timestamps travel as a signed 64-bit count of nanoseconds since the Unix
//! epoch, in the fixed-width form of an `i64`. A time that such a count
//! cannot hold is written as the epoch itself.
use vstd::prelude::*;
use crate::error::Error;
use crate::cursor::{emitted, skipped};
use crate::fixed::{i64_bytes, parse_i64, marshal_i64, unmarshal_i64, skip_i64};

verus! {

/// A point in time as the logic sees it: its nanoseconds since the Unix
/// epoch, or `None` for a time so far from the epoch that an `i64` count of
/// nanoseconds cannot hold it.
#[derive(Debug, Clone, Copy, PartialEq, Eq)]
pub struct Timestamp {
    pub nanos: Option<i64>,
}

impl Timestamp {
    /// The time `nanos` nanoseconds after the epoch (before it, if negative).
    pub fn from_nanos(nanos: i64) -> (r: Timestamp)
        ensures
            r.nanos == Some(nanos),
    {
        Timestamp { nanos: Some(nanos) }
    }

    /// A time given by an optional nanosecond count, `None` standing for one
    /// that the count cannot hold.
    pub fn from_nanos_opt(nanos: Option<i64>) -> (r: Timestamp)
        ensures
            r.nanos == nanos,
    {
        Timestamp { nanos }
    }
}

/// The nanosecond count that a timestamp travels as: its own, or 0 (the
/// epoch) where it has none.
pub open spec fn wire_nanos(t: Timestamp) -> i64 {
    match t.nanos {
        Some(n) => n,
        None => 0,
    }
}

/// The bytes of a timestamp.
pub open spec fn time_bytes(t: Timestamp) -> Seq<u8> {
    i64_bytes(wire_nanos(t))
}

/// What reading a timestamp from the front of `s` gives: every count is a
/// time.
pub open spec fn parse_time(s: Seq<u8>) -> Result<(Timestamp, nat), Error> {
    match parse_i64(s) {
        Ok((v, n)) => Ok((Timestamp { nanos: Some(v) }, n)),
        Err(e) => Err(e),
    }
}

/// Returns the number of bytes of a marshalled timestamp.
pub fn size_time() -> (r: usize)
    ensures
        r == 8,
{
    8
}

/// Writes a timestamp: its nanosecond count, or 0 where it has none, as an
/// `i64`.
pub fn marshal_time(t: Timestamp, writer: &mut &mut [u8]) -> (r: Result<(), Error>)
    ensures
        emitted(r, old(writer)@, final(writer)@, final(*old(writer))@, final(*final(writer))@, time_bytes(t)),
        r is Err ==> *final(writer) == *old(writer),
{
    let n = match t.nanos {
        Some(n) => n,
        None => 0,
    };
    marshal_i64(n, writer)
}

/// Reads a timestamp. Every count of nanoseconds is a valid time, so this
/// fails only where fewer than eight bytes remain.
pub fn unmarshal_time(reader: &mut &[u8]) -> (r: Result<Timestamp, Error>)
    ensures
        match parse_time(old(reader)@) {
            Ok((t, n)) => r == Ok::<Timestamp, Error>(t) && final(reader)@ == old(reader)@.skip(n as int),
            Err(e) => r == Err::<Timestamp, Error>(e) && final(reader)@ == old(reader)@,
        },
{
    let nanos = unmarshal_i64(reader)?;
    Ok(Timestamp { nanos: Some(nanos) })
}

/// Moves the read cursor past a timestamp.
pub fn skip_time(reader: &mut &[u8]) -> (r: Result<(), Error>)
    ensures
        skipped(r, parse_time(old(reader)@), old(reader)@, final(reader)@),
        r is Err ==> final(reader)@ == old(reader)@,
{
    skip_i64(reader)
}

} // verus!
