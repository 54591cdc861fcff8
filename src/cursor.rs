//! The two cursors that every codec threads through its calls, and the
//! predicates that the codecs' contracts use to say what a call did to them.
//!
//! A read cursor is a `&mut &[u8]` whose slice is the unread remainder of the
//! input; a write cursor is a `&mut &mut [u8]` whose slice is the unwritten
//! remainder of the destination buffer. For a write cursor `w`, `final(*w)` is
//! the buffer as the caller will see it once every write is done: that is how
//! the contracts say which bytes landed where.
use vstd::prelude::*;
use crate::error::Error;

verus! {

/// A call that wrote `out` through a write cursor. The cursor stood on
/// `start` before the call and stands on `rest` after it; the slice it stood
/// on ends up holding `filled`, and the slice it stands on now ends up
/// holding `tail`.
pub open spec fn wrote(start: Seq<u8>, rest: Seq<u8>, filled: Seq<u8>, tail: Seq<u8>, out: Seq<u8>) -> bool {
    &&& out.len() <= start.len()
    &&& rest == start.skip(out.len() as int)
    &&& filled == out + tail
}

/// Two writes in a row amount to one write of both byte strings.
pub broadcast proof fn lemma_wrote_concat(
    s0: Seq<u8>, s1: Seq<u8>, s2: Seq<u8>, f0: Seq<u8>, f1: Seq<u8>, f2: Seq<u8>, a: Seq<u8>, b: Seq<u8>,
)
    requires
        wrote(s0, s1, f0, f1, a),
        wrote(s1, s2, f1, f2, b),
    ensures
        #![trigger wrote(s0, s1, f0, f1, a), wrote(s1, s2, f1, f2, b)]
        wrote(s0, s2, f0, f2, a + b),
{
    assert(s0.skip(a.len() as int).skip(b.len() as int) == s0.skip((a + b).len() as int));
    assert(a + (b + f2) == (a + b) + f2);
}

/// The outcome of a call that writes `out` when there is room for it and
/// fails with `BufferTooSmall` exactly when there is not.
pub open spec fn emitted(
    r: Result<(), Error>,
    start: Seq<u8>,
    rest: Seq<u8>,
    filled: Seq<u8>,
    tail: Seq<u8>,
    out: Seq<u8>,
) -> bool {
    match r {
        Ok(_) => wrote(start, rest, filled, tail, out),
        Err(e) => e == Error::BufferTooSmall && out.len() > start.len(),
    }
}

/// The outcome of a read that returns what `p` decodes from `start` and
/// moves the cursor past the bytes that `p` consumed, or fails as `p` does.
pub open spec fn decoded<T>(r: Result<T, Error>, p: Result<(T, nat), Error>, start: Seq<u8>, rest: Seq<u8>) -> bool {
    match p {
        Ok((v, n)) => r == Ok::<T, Error>(v) && n <= start.len() && rest == start.skip(n as int),
        Err(e) => r == Err::<T, Error>(e),
    }
}

/// The outcome of a skip that moves the cursor exactly as far as the read
/// described by `p` would, and fails as `p` does.
pub open spec fn skipped<T>(r: Result<(), Error>, p: Result<(T, nat), Error>, start: Seq<u8>, rest: Seq<u8>) -> bool {
    match p {
        Ok((_, n)) => r is Ok && n <= start.len() && rest == start.skip(n as int),
        Err(e) => r == Err::<(), Error>(e),
    }
}

/// Takes the next `n` bytes of the read cursor, as a view into the input.
pub(crate) fn advance<'a>(reader: &mut &'a [u8], n: usize) -> (r: Result<&'a [u8], Error>)
    ensures
        match r {
            Ok(head) => n <= old(reader)@.len() && head@ == old(reader)@.take(n as int)
                && final(reader)@ == old(reader)@.skip(n as int),
            Err(e) => e == Error::BufferTooSmall && n > old(reader)@.len()
                && final(reader)@ == old(reader)@,
        },
{
    if reader.len() < n {
        return Err(Error::BufferTooSmall);
    }
    let (head, tail) = reader.split_at(n);
    *reader = tail;
    Ok(head)
}

/// Copies `data` to the front of the write cursor and moves it past them.
pub(crate) fn write_to_slice<'a>(writer: &mut &'a mut [u8], data: &[u8]) -> (r: Result<(), Error>)
    ensures
        emitted(r, old(writer)@, final(writer)@, final(*old(writer))@, final(*final(writer))@, data@),
        r is Err ==> *final(writer) == *old(writer),
{
    if writer.len() < data.len() {
        return Err(Error::BufferTooSmall);
    }
    let mut whole: &'a mut [u8] = &mut [];
    std::mem::swap(writer, &mut whole);
    let (head, tail) = whole.split_at_mut(data.len());
    let mut i: usize = 0;
    while i < data.len()
        invariant
            i <= data@.len(),
            head@.len() == data@.len(),
            forall|j: int| 0 <= j < i ==> head@[j] == data@[j],
        decreases data@.len() - i,
    {
        head[i] = data[i];
        i = i + 1;
    }
    assert(head@ == data@);
    *writer = tail;
    Ok(())
}

} // verus!
