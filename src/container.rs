//! Containers: sequences and mappings (a varint count, the elements, then
//! the four-byte terminator `01 01 01 01`) and optional values (a presence
//! byte, then the value if present).
//!
//! The element codecs are closures supplied by the caller. A read closure
//! takes a read cursor and returns the element; a write closure takes the
//! element and a write cursor. The contracts name each closure call by the
//! cursor it was handed: each call starts where the one before it ended,
//! and the terminator is read or written where the last one ended. For a
//! write call, the contracts also say what the slice it was handed ends up
//! holding, so the bytes between the count and the terminator are the ones
//! the element calls wrote.
use vstd::prelude::*;
use std::collections::HashMap;
use std::hash::Hash;
use vstd::std_specs::hash::obeys_key_model;
use crate::error::Error;
use crate::cursor::{advance, write_to_slice, emitted, wrote};
use crate::varint::{uint_bytes, parse_uint, size_uint, marshal_uint, unmarshal_uint, lemma_pow128_values, lemma_uint_bytes_len};
use crate::fixed::{parse_bool, size_bool, marshal_bool, unmarshal_bool};

verus! {

/// The number of bytes of the terminator.
pub const TERMINATOR_LEN: usize = 4;

/// The terminator that closes every sequence and mapping.
pub open spec fn terminator() -> Seq<u8> {
    seq![1u8, 1u8, 1u8, 1u8]
}

/// What reading the terminator from the front of `s` gives.
pub open spec fn parse_terminator(s: Seq<u8>) -> Result<((), nat), Error> {
    if s.len() < 4 {
        Err(Error::BufferTooSmall)
    } else if s.take(4) != terminator() {
        Err(Error::MissingTerminator)
    } else {
        Ok(((), 4))
    }
}

/// The call of `f` through `rd` returned `out`: `rd` stood on `start`, and
/// `after`, the slice `rd` ends up on, is `rest`.
pub open spec fn read_call<'a, T, F: Fn(&mut &'a [u8]) -> Result<T, Error>>(
    f: F,
    rd: &mut &'a [u8],
    after: &'a [u8],
    start: Seq<u8>,
    rest: Seq<u8>,
    out: Result<T, Error>,
) -> bool {
    &&& f.ensures((rd,), out)
    &&& (*rd)@ == start
    &&& after@ == rest
}

/// The call of `f` on `x` through `w` returned `out`: `w` stood on `start`,
/// and `after`, the slice `w` ends up on, is `rest`; the slice `w` stood on
/// ends up holding `filled`, which is `fstart`, and the one it ends up on
/// holds `tail`, which is `frest`.
pub open spec fn write_call<T, F: Fn(&T, &mut &mut [u8]) -> Result<(), Error>>(
    f: F,
    x: T,
    w: &mut &mut [u8],
    after: &mut [u8],
    filled: Seq<u8>,
    tail: Seq<u8>,
    start: Seq<u8>,
    rest: Seq<u8>,
    fstart: Seq<u8>,
    frest: Seq<u8>,
    out: Result<(), Error>,
) -> bool {
    &&& f.ensures((&x, w), out)
    &&& (*w)@ == start
    &&& after@ == rest
    &&& filled == fstart
    &&& tail == frest
}

/// A successful call of a write closure, as `write_call` describes it.
pub open spec fn wrote_call<T, F: Fn(&T, &mut &mut [u8]) -> Result<(), Error>>(
    f: F,
    x: T,
    w: &mut &mut [u8],
    after: &mut [u8],
    filled: Seq<u8>,
    tail: Seq<u8>,
    start: Seq<u8>,
    rest: Seq<u8>,
    fstart: Seq<u8>,
    frest: Seq<u8>,
    out: Result<(), Error>,
) -> bool {
    &&& out is Ok
    &&& write_call(f, x, w, after, filled, tail, start, rest, fstart, frest, out)
}

/// A successful call of a skip closure, as `read_call` describes it.
pub open spec fn skipped_call<'a, F: Fn(&mut &'a [u8]) -> Result<(), Error>>(
    f: F,
    rd: &mut &'a [u8],
    after: &'a [u8],
    start: Seq<u8>,
    rest: Seq<u8>,
    out: Result<(), Error>,
) -> bool {
    &&& out is Ok
    &&& read_call(f, rd, after, start, rest, out)
}

/// Reads the terminator. The cursor moves only on success.
fn check_terminator(reader: &mut &[u8]) -> (r: Result<(), Error>)
    ensures
        match parse_terminator(old(reader)@) {
            Ok(_) => r is Ok && final(reader)@ == old(reader)@.skip(4),
            Err(e) => r == Err::<(), Error>(e),
        },
{
    let term = advance(reader, TERMINATOR_LEN)?;
    if term[0] != 1 || term[1] != 1 || term[2] != 1 || term[3] != 1 {
        return Err(Error::MissingTerminator);
    }
    assert(term@ == terminator());
    Ok(())
}

/// Writes the terminator.
fn write_terminator(writer: &mut &mut [u8]) -> (r: Result<(), Error>)
    ensures
        emitted(r, old(writer)@, final(writer)@, final(*old(writer))@, final(*final(writer))@, terminator()),
{
    let term: [u8; 4] = [1, 1, 1, 1];
    assert(term@ == terminator());
    write_to_slice(writer, &term)
}

/// Reads a sequence: a count, that many elements read with `unmarshaler`,
/// then the terminator. Each element is read where the one before it
/// stopped, and the terminator where the last one stopped. Stops at the
/// first failure, returning its error.
pub fn unmarshal_slice<'a, T, F: Fn(&mut &'a [u8]) -> Result<T, Error>>(
    reader: &mut &'a [u8],
    unmarshaler: F,
) -> (r: Result<Vec<T>, Error>)
    requires
        forall|rd: &mut &'a [u8]| #[trigger] unmarshaler.requires((rd,)),
    ensures
        match parse_uint(old(reader)@) {
            Ok((count, n)) => exists|st: Seq<Seq<u8>>, refs: Seq<&mut &'a [u8]>, vals: Seq<T>|
                #![trigger st.len(), refs.len(), vals.len()]
                st[0] == old(reader)@.skip(n as int) && st.len() == vals.len() + 1 && vals.len() <= count
                && (forall|j: int| #![trigger st[j]] 0 <= j < vals.len() ==> read_call(unmarshaler, refs[j],
                    *final(refs[j]), st[j], st[j + 1], Ok::<T, Error>(vals[j])))
                && if vals.len() < count {
                    refs.len() == vals.len() + 1 && (r matches Err(e)
                        && read_call(unmarshaler, refs[vals.len() as int], *final(refs[vals.len() as int]),
                            st.last(), (*final(refs[vals.len() as int]))@, Err::<T, Error>(e)))
                } else {
                    refs.len() == vals.len() && (match parse_terminator(st.last()) {
                        Ok(_) => r matches Ok(v) && v@ == vals && final(reader)@ == st.last().skip(4),
                        Err(e) => r == Err::<Vec<T>, Error>(e),
                    })
                },
            Err(e) => r == Err::<Vec<T>, Error>(e),
        },
{
    let len = unmarshal_uint(reader)?;
    let ghost mut st: Seq<Seq<u8>> = seq![reader@];
    let mut vec: Vec<T> = Vec::new();
    let mut i: u64 = 0;
    proof {
        let e = Seq::<&mut &'a [u8]>::empty();
        assert(e.len() == 0);
    }
    while i < len
        invariant
            i <= len,
            vec@.len() == i,
            st.len() == i + 1,
            st.last() == reader@,
            match parse_uint(old(reader)@) {
                Ok((count, n)) => count == len && st[0] == old(reader)@.skip(n as int),
                Err(_) => false,
            },
            forall|rd: &mut &'a [u8]| #[trigger] unmarshaler.requires((rd,)),
            exists|refs: Seq<&mut &'a [u8]>| #![trigger refs.len()] refs.len() == i
                && forall|j: int| #![trigger st[j]] 0 <= j < i ==> read_call(unmarshaler, refs[j],
                    *final(refs[j]), st[j], st[j + 1], Ok::<T, Error>(vec@[j])),
        decreases len - i,
    {
        let ghost st0 = st;
        let ghost v0 = vec@;
        let ghost pre = reader@;
        let res = unmarshaler(reader);
        proof {
            assert(exists|t: &mut &'a [u8]| #[trigger] unmarshaler.ensures((t,), res) && (*t)@ == pre
                && (*final(t))@ == reader@);
        }
        match res {
            Ok(x) => {
                vec.push(x);
                proof {
                    st = st.push(reader@);
                    let refs0 = choose|refs: Seq<&mut &'a [u8]>| #![trigger refs.len()] refs.len() == i
                        && forall|j: int| #![trigger st0[j]] 0 <= j < i ==> read_call(unmarshaler, refs[j],
                            *final(refs[j]), st0[j], st0[j + 1], Ok::<T, Error>(v0[j]));
                    let t = choose|t: &mut &'a [u8]| #[trigger] unmarshaler.ensures((t,), res) && (*t)@ == pre
                        && (*final(t))@ == reader@;
                    let refs = refs0.push(t);
                    assert forall|j: int| #![trigger st[j]] 0 <= j < i + 1 implies read_call(unmarshaler, refs[j],
                        *final(refs[j]), st[j], st[j + 1], Ok::<T, Error>(vec@[j])) by {
                        if j < i {
                            assert(st0[j] == st[j]);
                            assert(st0[j + 1] == st[j + 1]);
                            assert(v0[j] == vec@[j]);
                            assert(refs0[j] == refs[j]);
                        } else {
                            assert(res == Ok::<T, Error>(vec@[j]));
                        }
                    }
                    assert(refs.len() == i + 1);
                    assert(exists|refs: Seq<&mut &'a [u8]>| #![trigger refs.len()] refs.len() == i + 1
                        && forall|j: int| #![trigger st[j]] 0 <= j < i + 1 ==> read_call(unmarshaler, refs[j],
                            *final(refs[j]), st[j], st[j + 1], Ok::<T, Error>(vec@[j])));
                }
            },
            Err(e) => {
                proof {
                    let refs0 = choose|refs: Seq<&mut &'a [u8]>| #![trigger refs.len()] refs.len() == i
                        && forall|j: int| #![trigger st[j]] 0 <= j < i ==> read_call(unmarshaler, refs[j],
                            *final(refs[j]), st[j], st[j + 1], Ok::<T, Error>(vec@[j]));
                    let t = choose|t: &mut &'a [u8]| #[trigger] unmarshaler.ensures((t,), res) && (*t)@ == pre
                        && (*final(t))@ == reader@;
                    let refs = refs0.push(t);
                    assert forall|j: int| #![trigger st[j]] 0 <= j < i implies read_call(unmarshaler, refs[j],
                        *final(refs[j]), st[j], st[j + 1], Ok::<T, Error>(vec@[j])) by {
                        assert(refs0[j] == refs[j]);
                    }
                    assert(read_call(unmarshaler, refs[i as int], *final(refs[i as int]), st.last(),
                        (*final(refs[i as int]))@, Err::<T, Error>(e)));
                    assert(st.len() == vec@.len() + 1 && refs.len() == vec@.len() + 1);
                }
                return Err(e);
            },
        }
        i = i + 1;
    }
    let ghost last = reader@;
    let r = check_terminator(reader);
    proof {
        let refs = choose|refs: Seq<&mut &'a [u8]>| #![trigger refs.len()] refs.len() == i
            && forall|j: int| #![trigger st[j]] 0 <= j < i ==> read_call(unmarshaler, refs[j],
                *final(refs[j]), st[j], st[j + 1], Ok::<T, Error>(vec@[j]));
        assert(st.len() == vec@.len() + 1 && refs.len() == vec@.len());
    }
    match r {
        Ok(_) => Ok(vec),
        Err(e) => Err(e),
    }
}

/// Moves the read cursor past a sequence, skipping each element with
/// `skip_element` where the one before it stopped, and checks the terminator
/// where the last one stopped. Stops at the first failure, returning its
/// error.
pub fn skip_slice<'a, F: Fn(&mut &'a [u8]) -> Result<(), Error>>(
    reader: &mut &'a [u8],
    skip_element: F,
) -> (r: Result<(), Error>)
    requires
        forall|rd: &mut &'a [u8]| #[trigger] skip_element.requires((rd,)),
    ensures
        match parse_uint(old(reader)@) {
            Ok((count, n)) => exists|st: Seq<Seq<u8>>, refs: Seq<&mut &'a [u8]>, outs: Seq<Result<(), Error>>|
                #![trigger st.len(), refs.len(), outs.len()]
                st[0] == old(reader)@.skip(n as int) && st.len() == outs.len() + 1 && outs.len() <= count
                && (forall|j: int| #![trigger st[j]] 0 <= j < outs.len() ==> skipped_call(skip_element,
                    refs[j], *final(refs[j]), st[j], st[j + 1], outs[j]))
                && if outs.len() < count {
                    refs.len() == outs.len() + 1 && r is Err
                        && read_call(skip_element, refs[outs.len() as int], *final(refs[outs.len() as int]),
                            st.last(), (*final(refs[outs.len() as int]))@, r)
                } else {
                    refs.len() == outs.len() && (match parse_terminator(st.last()) {
                        Ok(_) => r is Ok && final(reader)@ == st.last().skip(4),
                        Err(e) => r == Err::<(), Error>(e),
                    })
                },
            Err(e) => r == Err::<(), Error>(e),
        },
{
    let len = unmarshal_uint(reader)?;
    let ghost mut st: Seq<Seq<u8>> = seq![reader@];
    let ghost mut outs: Seq<Result<(), Error>> = Seq::empty();
    let mut i: u64 = 0;
    proof {
        let e = Seq::<&mut &'a [u8]>::empty();
        assert(e.len() == 0);
    }
    while i < len
        invariant
            i <= len,
            outs.len() == i,
            st.len() == i + 1,
            st.last() == reader@,
            match parse_uint(old(reader)@) {
                Ok((count, n)) => count == len && st[0] == old(reader)@.skip(n as int),
                Err(_) => false,
            },
            forall|rd: &mut &'a [u8]| #[trigger] skip_element.requires((rd,)),
            exists|refs: Seq<&mut &'a [u8]>| #![trigger refs.len()] refs.len() == i
                && forall|j: int| #![trigger st[j]] 0 <= j < i ==> skipped_call(skip_element,
                    refs[j], *final(refs[j]), st[j], st[j + 1], outs[j]),
        decreases len - i,
    {
        let ghost st0 = st;
        let ghost o0 = outs;
        let ghost pre = reader@;
        let res = skip_element(reader);
        proof {
            assert(exists|t: &mut &'a [u8]| #[trigger] skip_element.ensures((t,), res) && (*t)@ == pre
                && (*final(t))@ == reader@);
        }
        if res.is_err() {
            proof {
                let refs0 = choose|refs: Seq<&mut &'a [u8]>| #![trigger refs.len()] refs.len() == i
                    && forall|j: int| #![trigger st[j]] 0 <= j < i ==> skipped_call(skip_element,
                        refs[j], *final(refs[j]), st[j], st[j + 1], outs[j]);
                let t = choose|t: &mut &'a [u8]| #[trigger] skip_element.ensures((t,), res) && (*t)@ == pre
                    && (*final(t))@ == reader@;
                let refs = refs0.push(t);
                assert forall|j: int| #![trigger st[j]] 0 <= j < i implies skipped_call(skip_element,
                    refs[j], *final(refs[j]), st[j], st[j + 1], outs[j]) by {
                    assert(refs0[j] == refs[j]);
                }
                assert(read_call(skip_element, refs[i as int], *final(refs[i as int]), st.last(),
                    (*final(refs[i as int]))@, res));
                assert(st.len() == outs.len() + 1 && refs.len() == outs.len() + 1);
            }
            return res;
        }
        proof {
            st = st.push(reader@);
            outs = outs.push(res);
            let refs0 = choose|refs: Seq<&mut &'a [u8]>| #![trigger refs.len()] refs.len() == i
                && forall|j: int| #![trigger st0[j]] 0 <= j < i ==> skipped_call(skip_element,
                    refs[j], *final(refs[j]), st0[j], st0[j + 1], o0[j]);
            let t = choose|t: &mut &'a [u8]| #[trigger] skip_element.ensures((t,), res) && (*t)@ == pre
                && (*final(t))@ == reader@;
            let refs = refs0.push(t);
            assert forall|j: int| #![trigger st[j]] 0 <= j < i + 1 implies skipped_call(skip_element,
                refs[j], *final(refs[j]), st[j], st[j + 1], outs[j]) by {
                if j < i {
                    assert(st0[j] == st[j]);
                    assert(st0[j + 1] == st[j + 1]);
                    assert(o0[j] == outs[j]);
                    assert(refs0[j] == refs[j]);
                }
            }
            assert(refs.len() == i + 1);
            assert(exists|refs: Seq<&mut &'a [u8]>| #![trigger refs.len()] refs.len() == i + 1
                && forall|j: int| #![trigger st[j]] 0 <= j < i + 1 ==> skipped_call(skip_element,
                    refs[j], *final(refs[j]), st[j], st[j + 1], outs[j]));
        }
        i = i + 1;
    }
    let r = check_terminator(reader);
    proof {
        let refs = choose|refs: Seq<&mut &'a [u8]>| #![trigger refs.len()] refs.len() == i
            && forall|j: int| #![trigger st[j]] 0 <= j < i ==> skipped_call(skip_element,
                refs[j], *final(refs[j]), st[j], st[j + 1], outs[j]);
        assert(st.len() == outs.len() + 1 && refs.len() == outs.len());
    }
    r
}

/// Writes a sequence: its length as a varint, each element with
/// `marshaler` where the one before it stopped, then the terminator. Fails
/// with `BufferTooSmall` when the count, or the terminator after the last
/// element, does not fit, and otherwise with the error of the first element
/// call that fails.
pub fn marshal_slice<T, F: Fn(&T, &mut &mut [u8]) -> Result<(), Error>>(
    slice: &[T],
    writer: &mut &mut [u8],
    marshaler: F,
) -> (r: Result<(), Error>)
    requires
        forall|x: &T, w: &mut &mut [u8]| #[trigger] marshaler.requires((x, w)),
    ensures
        ({
            let u = uint_bytes(slice@.len() as u64);
            if u.len() > old(writer)@.len() {
                r == Err::<(), Error>(Error::BufferTooSmall)
            } else {
                exists|st: Seq<Seq<u8>>, fl: Seq<Seq<u8>>, refs: Seq<&mut &mut [u8]>, outs: Seq<Result<(), Error>>|
                    #![trigger st.len(), fl.len(), refs.len(), outs.len()]
                    st.len() == outs.len() + 1 && fl.len() == outs.len() + 1 && outs.len() <= slice@.len()
                    && st[0] == old(writer)@.skip(u.len() as int) && final(*old(writer))@ == u + fl[0]
                    && (forall|j: int| #![trigger st[j]] 0 <= j < outs.len() ==> wrote_call(marshaler, slice@[j],
                        refs[j], *final(refs[j]), final(*refs[j])@, final(*final(refs[j]))@, st[j], st[j + 1], fl[j],
                        fl[j + 1], outs[j]))
                    && if outs.len() < slice@.len() {
                        refs.len() == outs.len() + 1 && r is Err && write_call(marshaler, slice@[outs.len() as int],
                            refs[outs.len() as int], *final(refs[outs.len() as int]), final(*refs[outs.len() as int])@,
                            final(*final(refs[outs.len() as int]))@, st.last(), (*final(refs[outs.len() as int]))@,
                            fl.last(), final(*final(refs[outs.len() as int]))@, r)
                    } else {
                        refs.len() == outs.len() && (if st.last().len() < 4 {
                            r == Err::<(), Error>(Error::BufferTooSmall)
                        } else {
                            r is Ok && fl.last() == terminator() + final(*final(writer))@
                                && final(writer)@ == st.last().skip(4)
                        })
                    }
            }
        }),
{
    let ghost u = uint_bytes(slice@.len() as u64);
    marshal_uint(slice.len() as u64, writer)?;
    let ghost mut st: Seq<Seq<u8>> = seq![writer@];
    let ghost mut outs: Seq<Result<(), Error>> = Seq::empty();
    proof {
        let e = Seq::<&mut &mut [u8]>::empty();
        let fl = seq![final(*writer)@];
        assert(e.len() == 0 && fl.len() == 1);
    }
    let mut i: usize = 0;
    while i < slice.len()
        invariant
            i <= slice@.len(),
            u == uint_bytes(slice@.len() as u64),
            u.len() <= old(writer)@.len(),
            outs.len() == i,
            st.len() == i + 1,
            st[0] == old(writer)@.skip(u.len() as int),
            st.last() == writer@,
            forall|x: &T, w: &mut &mut [u8]| #[trigger] marshaler.requires((x, w)),
            exists|refs: Seq<&mut &mut [u8]>, fl: Seq<Seq<u8>>| #![trigger refs.len(), fl.len()]
                refs.len() == i && fl.len() == i + 1 && final(*old(writer))@ == u + fl[0]
                && fl.last() == final(*writer)@
                && forall|j: int| #![trigger st[j]] 0 <= j < i ==> wrote_call(marshaler, slice@[j], refs[j],
                    *final(refs[j]), final(*refs[j])@, final(*final(refs[j]))@, st[j], st[j + 1], fl[j], fl[j + 1],
                    outs[j]),
        decreases slice@.len() - i,
    {
        let ghost st0 = st;
        let ghost o0 = outs;
        let ghost pre = writer@;
        let ghost fpre = final(*writer)@;
        let res = marshaler(&slice[i], writer);
        proof {
            assert(exists|t: &mut &mut [u8]| #[trigger] marshaler.ensures((&slice@[i as int], t), res)
                && (*t)@ == pre && (*final(t))@ == writer@ && final(*t)@ == fpre
                && final(*final(t))@ == final(*writer)@);
        }
        if res.is_err() {
            proof {
                let (refs0, fl0) = choose|refs: Seq<&mut &mut [u8]>, fl: Seq<Seq<u8>>| #![trigger refs.len(), fl.len()]
                    refs.len() == i && fl.len() == i + 1 && final(*old(writer))@ == u + fl[0]
                && fl.last() == fpre
                && forall|j: int| #![trigger st[j]] 0 <= j < i ==> wrote_call(marshaler, slice@[j], refs[j],
                    *final(refs[j]), final(*refs[j])@, final(*final(refs[j]))@, st[j], st[j + 1], fl[j], fl[j + 1],
                    outs[j]);
                let t = choose|t: &mut &mut [u8]| #[trigger] marshaler.ensures((&slice@[i as int], t), res)
                    && (*t)@ == pre && (*final(t))@ == writer@ && final(*t)@ == fpre
                    && final(*final(t))@ == final(*writer)@;
                let refs = refs0.push(t);
                assert forall|j: int| #![trigger st[j]] 0 <= j < i implies wrote_call(marshaler, slice@[j], refs[j],
                    *final(refs[j]), final(*refs[j])@, final(*final(refs[j]))@, st[j], st[j + 1], fl0[j], fl0[j + 1],
                    outs[j]) by {
                    assert(refs0[j] == refs[j]);
                }
                assert(st.len() == outs.len() + 1 && fl0.len() == outs.len() + 1 && refs.len() == outs.len() + 1);
            }
            return res;
        }
        proof {
            st = st.push(writer@);
            outs = outs.push(res);
        }
        proof {
            let (refs0, fl0) = choose|refs: Seq<&mut &mut [u8]>, fl: Seq<Seq<u8>>| #![trigger refs.len(), fl.len()]
                refs.len() == i && fl.len() == i + 1 && final(*old(writer))@ == u + fl[0]
                && fl.last() == fpre
                && forall|j: int| #![trigger st0[j]] 0 <= j < i ==> wrote_call(marshaler, slice@[j], refs[j],
                    *final(refs[j]), final(*refs[j])@, final(*final(refs[j]))@, st0[j], st0[j + 1], fl[j], fl[j + 1],
                    o0[j]);
            let t = choose|t: &mut &mut [u8]| #[trigger] marshaler.ensures((&slice@[i as int], t), res)
                && (*t)@ == pre && (*final(t))@ == writer@ && final(*t)@ == fpre
                && final(*final(t))@ == final(*writer)@;
            let refs = refs0.push(t);
            let fl = fl0.push(final(*writer)@);
            assert forall|j: int| #![trigger st[j]] 0 <= j < i + 1 implies wrote_call(marshaler, slice@[j], refs[j],
                *final(refs[j]), final(*refs[j])@, final(*final(refs[j]))@, st[j], st[j + 1], fl[j], fl[j + 1],
                outs[j]) by {
                if j < i {
                    assert(st0[j] == st[j]);
                    assert(st0[j + 1] == st[j + 1]);
                    assert(o0[j] == outs[j]);
                    assert(refs0[j] == refs[j]);
                    assert(fl0[j] == fl[j]);
                    assert(fl0[j + 1] == fl[j + 1]);
                }
            }
            assert(refs.len() == i + 1 && fl.len() == i + 2);
            assert(exists|refs: Seq<&mut &mut [u8]>, fl: Seq<Seq<u8>>| #![trigger refs.len(), fl.len()]
                refs.len() == i + 1 && fl.len() == i + 2 && final(*old(writer))@ == u + fl[0]
                && fl.last() == final(*writer)@
                && forall|j: int| #![trigger st[j]] 0 <= j < i + 1 ==> wrote_call(marshaler, slice@[j], refs[j],
                    *final(refs[j]), final(*refs[j])@, final(*final(refs[j]))@, st[j], st[j + 1], fl[j], fl[j + 1],
                    outs[j]));
        }
        i = i + 1;
    }
    let ghost last = writer@;
    let ghost flast = final(*writer)@;
    let r = write_terminator(writer);
    proof {
        let (refs, fl) = choose|refs: Seq<&mut &mut [u8]>, fl: Seq<Seq<u8>>| #![trigger refs.len(), fl.len()]
            refs.len() == i && fl.len() == i + 1 && final(*old(writer))@ == u + fl[0]
                && fl.last() == flast
                && forall|j: int| #![trigger st[j]] 0 <= j < i ==> wrote_call(marshaler, slice@[j], refs[j],
                    *final(refs[j]), final(*refs[j])@, final(*final(refs[j]))@, st[j], st[j + 1], fl[j], fl[j + 1],
                    outs[j]);
        assert(st.len() == outs.len() + 1 && fl.len() == outs.len() + 1 && refs.len() == outs.len());
    }
    r
}

/// The sum of a sequence of sizes.
pub open spec fn sum_of(s: Seq<usize>) -> int
    decreases s.len(),
{
    if s.len() == 0 {
        0
    } else {
        sum_of(s.drop_last()) + s.last()
    }
}

/// `sizes[i]` is a size that `f` can return for `xs[i]`, for each `i`.
pub open spec fn size_run<T, F: Fn(&T) -> usize>(f: F, xs: Seq<T>, sizes: Seq<usize>) -> bool {
    &&& sizes.len() == xs.len()
    &&& forall|i: int| 0 <= i < xs.len() ==> #[trigger] f.ensures((&xs[i],), sizes[i])
}

/// Returns the number of bytes that `marshal_slice` writes for `slice`,
/// `sizer` giving the size of each element: the count, the elements' sizes
/// and the terminator.
pub fn size_slice<T, F: Fn(&T) -> usize>(slice: &[T], sizer: F) -> (r: usize)
    requires
        forall|x: &T| #[trigger] sizer.requires((x,)),
        forall|sizes: Seq<usize>| sizes.len() <= slice@.len() && #[trigger] size_run(sizer, slice@.take(sizes.len() as int), sizes)
            ==> sum_of(sizes) + 14 <= usize::MAX,
    ensures
        exists|sizes: Seq<usize>| #[trigger] size_run(sizer, slice@, sizes)
            && r == uint_bytes(slice@.len() as u64).len() + sum_of(sizes) + 4,
{
    let ghost mut sizes: Seq<usize> = Seq::empty();
    let mut total: usize = 0;
    let mut i: usize = 0;
    while i < slice.len()
        invariant
            i <= slice@.len(),
            size_run(sizer, slice@.take(i as int), sizes),
            total == sum_of(sizes),
            forall|x: &T| #[trigger] sizer.requires((x,)),
            forall|sizes: Seq<usize>| sizes.len() <= slice@.len() && #[trigger] size_run(sizer, slice@.take(sizes.len() as int), sizes)
                ==> sum_of(sizes) + 14 <= usize::MAX,
        decreases slice@.len() - i,
    {
        let n = sizer(&slice[i]);
        proof {
            let prev = sizes;
            sizes = sizes.push(n);
            assert(sizes.drop_last() == prev);
            assert forall|j: int| 0 <= j < i + 1 implies #[trigger] sizer.ensures((&slice@.take(i + 1)[j],), sizes[j]) by {
                assert(slice@.take(i + 1)[j] == slice@[j]);
                if j < i {
                    assert(slice@.take(i as int)[j] == slice@[j]);
                }
            }
            assert(size_run(sizer, slice@.take(i + 1), sizes));
        }
        total = total + n;
        i = i + 1;
    }
    proof {
        assert(slice@.take(slice@.len() as int) == slice@);
        lemma_pow128_values();
        lemma_uint_bytes_len(slice@.len() as u64, 10);
    }
    size_uint(slice.len() as u64) + total + TERMINATOR_LEN
}

/// Returns the number of bytes that `marshal_slice` writes for `slice` when
/// every element takes `element_size` bytes.
pub fn size_fixed_slice<T>(slice: &[T], element_size: usize) -> (r: usize)
    requires
        slice@.len() * element_size + 14 <= usize::MAX,
    ensures
        r == uint_bytes(slice@.len() as u64).len() + slice@.len() * element_size + 4,
{
    let len = slice.len();
    size_uint(len as u64) + len * element_size + TERMINATOR_LEN
}

/// Returns the number of bytes that `marshal_option` writes for `v`: the
/// presence byte, and the value's size, by `sizer`, if there is one.
pub fn size_option<T, F: Fn(&T) -> usize>(v: &Option<T>, sizer: F) -> (r: usize)
    requires
        forall|x: &T| #[trigger] sizer.requires((x,)),
        forall|x: &T, n: usize| #[trigger] sizer.ensures((x,), n) ==> n < usize::MAX,
    ensures
        v is None ==> r == 1,
        v matches Some(x) ==> r >= 1 && sizer.ensures((&x,), (r - 1) as usize),
{
    match v {
        Some(x) => size_bool() + sizer(x),
        None => size_bool(),
    }
}

/// Writes an optional value: a presence byte (as a boolean), then, if there
/// is a value, the value with `marshaler` right after that byte. Fails with
/// `BufferTooSmall` when the presence byte does not fit, and otherwise with
/// the error of the value's call.
pub fn marshal_option<T, F: Fn(&T, &mut &mut [u8]) -> Result<(), Error>>(
    v: &Option<T>,
    writer: &mut &mut [u8],
    marshaler: F,
) -> (r: Result<(), Error>)
    requires
        forall|x: &T, w: &mut &mut [u8]| #[trigger] marshaler.requires((x, w)),
    ensures
        v is None ==> emitted(r, old(writer)@, final(writer)@, final(*old(writer))@, final(*final(writer))@, seq![0u8]),
        v matches Some(x) ==> (if old(writer)@.len() < 1 {
            r == Err::<(), Error>(Error::BufferTooSmall)
        } else {
            exists|w: &mut &mut [u8]|
                #[trigger] write_call(marshaler, *x, w, *final(w), final(*w)@, final(*final(w))@,
                    old(writer)@.skip(1), final(writer)@, final(*w)@, final(*final(writer))@, r)
                && final(*old(writer))@ == seq![1u8] + final(*w)@
        }),
{
    marshal_bool(v.is_some(), writer)?;
    match v {
        Some(value) => {
            let ghost pre = writer@;
            let ghost fpre = final(*writer)@;
            let res = marshaler(value, writer);
            proof {
                assert(exists|t: &mut &mut [u8]| #[trigger] marshaler.ensures((value, t), res)
                    && (*t)@ == pre && (*final(t))@ == writer@ && final(*t)@ == fpre
                    && final(*final(t))@ == final(*writer)@);
                let t = choose|t: &mut &mut [u8]| #[trigger] marshaler.ensures((value, t), res)
                    && (*t)@ == pre && (*final(t))@ == writer@ && final(*t)@ == fpre
                    && final(*final(t))@ == final(*writer)@;
                assert(write_call(marshaler, *value, t, *final(t), final(*t)@, final(*final(t))@, pre, writer@,
                    final(*t)@, final(*writer)@, res));
            }
            res
        },
        None => Ok(()),
    }
}

/// Reads an optional value: a presence byte (only a 1 means present), then
/// the value with `unmarshaler`, right after that byte, if it is present.
pub fn unmarshal_option<'a, T, F: Fn(&mut &'a [u8]) -> Result<T, Error>>(
    reader: &mut &'a [u8],
    unmarshaler: F,
) -> (r: Result<Option<T>, Error>)
    requires
        forall|rd: &mut &'a [u8]| #[trigger] unmarshaler.requires((rd,)),
    ensures
        match parse_bool(old(reader)@) {
            Ok((present, n)) => if present {
                exists|rd: &mut &'a [u8], out: Result<T, Error>|
                    #[trigger] read_call(unmarshaler, rd, *final(rd), old(reader)@.skip(1), final(reader)@, out)
                    && r == (match out {
                        Ok(x) => Ok::<Option<T>, Error>(Some(x)),
                        Err(e) => Err::<Option<T>, Error>(e),
                    })
            } else {
                r matches Ok(None) && final(reader)@ == old(reader)@.skip(1)
            },
            Err(e) => r == Err::<Option<T>, Error>(e),
        },
{
    if unmarshal_bool(reader)? {
        let ghost pre = reader@;
        let res = unmarshaler(reader);
        proof {
            assert(exists|t: &mut &'a [u8]| #[trigger] unmarshaler.ensures((t,), res) && (*t)@ == pre
                && (*final(t))@ == reader@);
            let t = choose|t: &mut &'a [u8]| #[trigger] unmarshaler.ensures((t,), res) && (*t)@ == pre
                && (*final(t))@ == reader@;
            assert(read_call(unmarshaler, t, *final(t), pre, reader@, res));
        }
        match res {
            Ok(x) => Ok(Some(x)),
            Err(e) => Err(e),
        }
    } else {
        Ok(None)
    }
}

/// Moves the read cursor past an optional value, skipping the value with
/// `skip_element`, right after the presence byte, if it is present.
pub fn skip_option<'a, F: Fn(&mut &'a [u8]) -> Result<(), Error>>(
    reader: &mut &'a [u8],
    skip_element: F,
) -> (r: Result<(), Error>)
    requires
        forall|rd: &mut &'a [u8]| #[trigger] skip_element.requires((rd,)),
    ensures
        match parse_bool(old(reader)@) {
            Ok((present, n)) => if present {
                exists|rd: &mut &'a [u8]|
                    #[trigger] read_call(skip_element, rd, *final(rd), old(reader)@.skip(1), final(reader)@, r)
            } else {
                r is Ok && final(reader)@ == old(reader)@.skip(1)
            },
            Err(e) => r == Err::<(), Error>(e),
        },
{
    if unmarshal_bool(reader)? {
        let ghost pre = reader@;
        let res = skip_element(reader);
        proof {
            assert(exists|t: &mut &'a [u8]| #[trigger] skip_element.ensures((t,), res) && (*t)@ == pre
                && (*final(t))@ == reader@);
            let t = choose|t: &mut &'a [u8]| #[trigger] skip_element.ensures((t,), res) && (*t)@ == pre
                && (*final(t))@ == reader@;
            assert(read_call(skip_element, t, *final(t), pre, reader@, res));
        }
        res
    } else {
        Ok(())
    }
}

/// The mapping that inserting `keys[i]` with `vals[i]`, in order, into an
/// empty one gives: a later key replaces an equal earlier one.
pub open spec fn map_of<K, V>(keys: Seq<K>, vals: Seq<V>) -> Map<K, V>
    decreases keys.len(),
{
    if keys.len() == 0 || vals.len() == 0 {
        Map::empty()
    } else {
        map_of(keys.drop_last(), vals.drop_last()).insert(keys.last(), vals.last())
    }
}

/// A map result seen through its view, where the key type lets the
/// `HashMap` be modelled as a mapping.
pub open spec fn map_result<K, V>(r: Result<HashMap<K, V>, Error>) -> Result<Map<K, V>, Error> {
    match r {
        Ok(m) => Ok(m@),
        Err(e) => Err(e),
    }
}

/// Two successful calls in a row: `kf` read `key` through `kr` from
/// `kstart`, ending on `vstart`, then `vf` read `val` through `vr` from
/// there, ending on `vend`.
pub open spec fn pair_read<'a, K, V, FK: Fn(&mut &'a [u8]) -> Result<K, Error>, FV: Fn(&mut &'a [u8]) -> Result<V, Error>>(
    kf: FK,
    vf: FV,
    kr: &mut &'a [u8],
    kafter: &'a [u8],
    vr: &mut &'a [u8],
    vafter: &'a [u8],
    kstart: Seq<u8>,
    vstart: Seq<u8>,
    vend: Seq<u8>,
    key: K,
    val: V,
) -> bool {
    &&& read_call(kf, kr, kafter, kstart, vstart, Ok::<K, Error>(key))
    &&& read_call(vf, vr, vafter, vstart, vend, Ok::<V, Error>(val))
}

/// Two successful skips in a row, as `pair_read` describes reads.
pub open spec fn pair_skip<'a, FK: Fn(&mut &'a [u8]) -> Result<(), Error>, FV: Fn(&mut &'a [u8]) -> Result<(), Error>>(
    kf: FK,
    vf: FV,
    kr: &mut &'a [u8],
    kafter: &'a [u8],
    vr: &mut &'a [u8],
    vafter: &'a [u8],
    kstart: Seq<u8>,
    vstart: Seq<u8>,
    vend: Seq<u8>,
    kout: Result<(), Error>,
    vout: Result<(), Error>,
) -> bool {
    &&& skipped_call(kf, kr, kafter, kstart, vstart, kout)
    &&& skipped_call(vf, vr, vafter, vstart, vend, vout)
}

/// Reads a mapping: a count, that many keys and values read in turn with
/// `k_unmarshaler` and `v_unmarshaler`, each where the previous read
/// stopped, then the terminator where the last value stopped. Each pair is
/// inserted in turn, so of two equal keys the later one wins. Stops at the
/// first failure, returning its error.
pub fn unmarshal_map<'a, K: Eq + Hash, V, FK: Fn(&mut &'a [u8]) -> Result<K, Error>, FV: Fn(&mut &'a [u8]) -> Result<V, Error>>(
    reader: &mut &'a [u8],
    k_unmarshaler: FK,
    v_unmarshaler: FV,
) -> (r: Result<HashMap<K, V>, Error>)
    requires
        obeys_key_model::<K>(),
        forall|rd: &mut &'a [u8]| #[trigger] k_unmarshaler.requires((rd,)),
        forall|rd: &mut &'a [u8]| #[trigger] v_unmarshaler.requires((rd,)),
    ensures
        match parse_uint(old(reader)@) {
            Ok((count, n)) => exists|ks: Seq<Seq<u8>>, vs: Seq<Seq<u8>>, krefs: Seq<&mut &'a [u8]>,
                vrefs: Seq<&mut &'a [u8]>, keys: Seq<K>, vals: Seq<V>|
                #![trigger ks.len(), vs.len(), krefs.len(), vrefs.len(), keys.len(), vals.len()]
                ks[0] == old(reader)@.skip(n as int) && ks.len() == keys.len() + 1 && vs.len() == keys.len()
                && vals.len() == keys.len() && keys.len() <= count
                && (forall|j: int| #![trigger ks[j]] 0 <= j < keys.len() ==> pair_read(k_unmarshaler, v_unmarshaler, krefs[j], *final(krefs[j]), vrefs[j], *final(vrefs[j]), ks[j], vs[j], ks[j + 1], keys[j], vals[j]))
                && if keys.len() < count {
                    krefs.len() == keys.len() + 1 && (r matches Err(e) && (
                        (vrefs.len() == keys.len() && read_call(k_unmarshaler, krefs.last(), *final(krefs.last()),
                            ks.last(), (*final(krefs.last()))@, Err::<K, Error>(e)))
                        || (vrefs.len() == keys.len() + 1 && exists|key: K| #[trigger] read_call(k_unmarshaler,
                            krefs.last(), *final(krefs.last()), ks.last(), (*final(krefs.last()))@, Ok::<K, Error>(key))
                            && read_call(v_unmarshaler, vrefs.last(), *final(vrefs.last()), (*final(krefs.last()))@,
                            (*final(vrefs.last()))@, Err::<V, Error>(e)))))
                } else {
                    krefs.len() == keys.len() && vrefs.len() == keys.len() && (match parse_terminator(ks.last()) {
                        Ok(_) => map_result(r) == Ok::<Map<K, V>, Error>(map_of(keys, vals))
                            && final(reader)@ == ks.last().skip(4),
                        Err(e) => r matches Err(e2) && e2 == e,
                    })
                },
            Err(e) => r matches Err(e2) && e2 == e,
        },
{
    broadcast use vstd::std_specs::hash::axiom_random_state_builds_valid_hashers;
    let len = unmarshal_uint(reader)?;
    let mut map: HashMap<K, V> = HashMap::new();
    let ghost mut ks: Seq<Seq<u8>> = seq![reader@];
    let ghost mut vs: Seq<Seq<u8>> = Seq::empty();
    let ghost mut keys: Seq<K> = Seq::empty();
    let ghost mut vals: Seq<V> = Seq::empty();
    proof {
        let e = Seq::<&mut &'a [u8]>::empty();
        assert(e.len() == 0);
    }
    let mut i: u64 = 0;
    while i < len
        invariant
            i <= len,
            keys.len() == i,
            vals.len() == i,
            ks.len() == i + 1,
            vs.len() == i,
            ks.last() == reader@,
            map@ == map_of(keys, vals),
            match parse_uint(old(reader)@) {
                Ok((count, n)) => count == len && ks[0] == old(reader)@.skip(n as int),
                Err(_) => false,
            },
            obeys_key_model::<K>(),
            forall|rd: &mut &'a [u8]| #[trigger] k_unmarshaler.requires((rd,)),
            forall|rd: &mut &'a [u8]| #[trigger] v_unmarshaler.requires((rd,)),
            exists|krefs: Seq<&mut &'a [u8]>, vrefs: Seq<&mut &'a [u8]>| #![trigger krefs.len(), vrefs.len()]
                krefs.len() == i && vrefs.len() == i
                && forall|j: int| #![trigger ks[j]] 0 <= j < i ==> pair_read(k_unmarshaler, v_unmarshaler, krefs[j], *final(krefs[j]), vrefs[j], *final(vrefs[j]), ks[j], vs[j], ks[j + 1], keys[j], vals[j]),
        decreases len - i,
    {
        let ghost ks0 = ks;
        let ghost vs0 = vs;
        let ghost keys0 = keys;
        let ghost vals0 = vals;
        let ghost kpre = reader@;
        let kres = k_unmarshaler(reader);
        let ghost vpre = reader@;
        proof {
            assert(exists|t: &mut &'a [u8]| #[trigger] k_unmarshaler.ensures((t,), kres) && (*t)@ == kpre
                && (*final(t))@ == vpre);
        }
        let k = match kres {
            Ok(k) => k,
            Err(e) => {
                proof {
                    let (krefs0, vrefs0) = choose|krefs: Seq<&mut &'a [u8]>, vrefs: Seq<&mut &'a [u8]>|
                        #![trigger krefs.len(), vrefs.len()] krefs.len() == i && vrefs.len() == i
                && forall|j: int| #![trigger ks[j]] 0 <= j < i ==> pair_read(k_unmarshaler, v_unmarshaler, krefs[j], *final(krefs[j]), vrefs[j], *final(vrefs[j]), ks[j], vs[j], ks[j + 1], keys[j], vals[j]);
                    let t = choose|t: &mut &'a [u8]| #[trigger] k_unmarshaler.ensures((t,), kres) && (*t)@ == kpre
                        && (*final(t))@ == vpre;
                    let krefs = krefs0.push(t);
                    assert forall|j: int| #![trigger ks[j]] 0 <= j < i implies read_call(k_unmarshaler, krefs[j], *final(krefs[j]), ks[j], vs[j], Ok::<K, Error>(keys[j])) && read_call(v_unmarshaler, vrefs0[j], *final(vrefs0[j]), vs[j], ks[j + 1], Ok::<V, Error>(vals[j])) by {
                        assert(krefs0[j] == krefs[j]);
                    }
                    assert(krefs.last() == t);
                    assert(ks.len() == keys.len() + 1 && vs.len() == keys.len() && krefs.len() == keys.len() + 1
                        && vrefs0.len() == keys.len() && vals.len() == keys.len());
                }
                return Err(e);
            },
        };
        let vres = v_unmarshaler(reader);
        proof {
            assert(exists|t: &mut &'a [u8]| #[trigger] v_unmarshaler.ensures((t,), vres) && (*t)@ == vpre
                && (*final(t))@ == reader@);
        }
        let v = match vres {
            Ok(v) => v,
            Err(e) => {
                proof {
                    let (krefs0, vrefs0) = choose|krefs: Seq<&mut &'a [u8]>, vrefs: Seq<&mut &'a [u8]>|
                        #![trigger krefs.len(), vrefs.len()] krefs.len() == i && vrefs.len() == i
                && forall|j: int| #![trigger ks[j]] 0 <= j < i ==> pair_read(k_unmarshaler, v_unmarshaler, krefs[j], *final(krefs[j]), vrefs[j], *final(vrefs[j]), ks[j], vs[j], ks[j + 1], keys[j], vals[j]);
                    let tk = choose|t: &mut &'a [u8]| #[trigger] k_unmarshaler.ensures((t,), kres) && (*t)@ == kpre
                        && (*final(t))@ == vpre;
                    let tv = choose|t: &mut &'a [u8]| #[trigger] v_unmarshaler.ensures((t,), vres) && (*t)@ == vpre
                        && (*final(t))@ == reader@;
                    let krefs = krefs0.push(tk);
                    let vrefs = vrefs0.push(tv);
                    assert forall|j: int| #![trigger ks[j]] 0 <= j < i implies pair_read(k_unmarshaler, v_unmarshaler, krefs[j], *final(krefs[j]), vrefs[j], *final(vrefs[j]), ks[j], vs[j], ks[j + 1], keys[j], vals[j]) by {
                        assert(krefs0[j] == krefs[j]);
                        assert(vrefs0[j] == vrefs[j]);
                    }
                    assert(krefs.last() == tk && vrefs.last() == tv);
                    assert(kres == Ok::<K, Error>(k));
                    assert(read_call(k_unmarshaler, krefs.last(), *final(krefs.last()), ks.last(),
                        (*final(krefs.last()))@, Ok::<K, Error>(k)));
                    assert(ks.len() == keys.len() + 1 && vs.len() == keys.len() && krefs.len() == keys.len() + 1
                        && vrefs.len() == keys.len() + 1 && vals.len() == keys.len());
                }
                return Err(e);
            },
        };
        proof {
            ks = ks.push(reader@);
            vs = vs.push(vpre);
            keys = keys.push(k);
            vals = vals.push(v);
            assert(keys.drop_last() == keys0);
            assert(vals.drop_last() == vals0);
            let (krefs0, vrefs0) = choose|krefs: Seq<&mut &'a [u8]>, vrefs: Seq<&mut &'a [u8]>|
                #![trigger krefs.len(), vrefs.len()] krefs.len() == i && vrefs.len() == i
                && forall|j: int| #![trigger ks0[j]] 0 <= j < i ==> pair_read(k_unmarshaler, v_unmarshaler, krefs[j], *final(krefs[j]), vrefs[j], *final(vrefs[j]), ks0[j], vs0[j], ks0[j + 1], keys0[j], vals0[j]);
            let tk = choose|t: &mut &'a [u8]| #[trigger] k_unmarshaler.ensures((t,), kres) && (*t)@ == kpre
                && (*final(t))@ == vpre;
            let tv = choose|t: &mut &'a [u8]| #[trigger] v_unmarshaler.ensures((t,), vres) && (*t)@ == vpre
                && (*final(t))@ == reader@;
            let krefs = krefs0.push(tk);
            let vrefs = vrefs0.push(tv);
            assert forall|j: int| #![trigger ks[j]] 0 <= j < i + 1 implies pair_read(k_unmarshaler, v_unmarshaler, krefs[j], *final(krefs[j]), vrefs[j], *final(vrefs[j]), ks[j], vs[j], ks[j + 1], keys[j], vals[j]) by {
                if j < i {
                    assert(ks0[j] == ks[j]);
                    assert(ks0[j + 1] == ks[j + 1]);
                    assert(vs0[j] == vs[j]);
                    assert(keys0[j] == keys[j]);
                    assert(vals0[j] == vals[j]);
                    assert(krefs0[j] == krefs[j]);
                    assert(vrefs0[j] == vrefs[j]);
                } else {
                    assert(kres == Ok::<K, Error>(keys[j]));
                    assert(vres == Ok::<V, Error>(vals[j]));
                }
            }
            assert(krefs.len() == i + 1 && vrefs.len() == i + 1);
            assert(exists|krefs: Seq<&mut &'a [u8]>, vrefs: Seq<&mut &'a [u8]>| #![trigger krefs.len(), vrefs.len()]
                krefs.len() == i + 1 && vrefs.len() == i + 1
                && forall|j: int| #![trigger ks[j]] 0 <= j < i + 1 ==> pair_read(k_unmarshaler, v_unmarshaler, krefs[j], *final(krefs[j]), vrefs[j], *final(vrefs[j]), ks[j], vs[j], ks[j + 1], keys[j], vals[j]));
        }
        map.insert(k, v);
        i = i + 1;
    }
    let r = check_terminator(reader);
    proof {
        let (krefs, vrefs) = choose|krefs: Seq<&mut &'a [u8]>, vrefs: Seq<&mut &'a [u8]>|
            #![trigger krefs.len(), vrefs.len()] krefs.len() == i && vrefs.len() == i
                && forall|j: int| #![trigger ks[j]] 0 <= j < i ==> pair_read(k_unmarshaler, v_unmarshaler, krefs[j], *final(krefs[j]), vrefs[j], *final(vrefs[j]), ks[j], vs[j], ks[j + 1], keys[j], vals[j]);
        assert(ks.len() == keys.len() + 1 && vs.len() == keys.len() && krefs.len() == keys.len()
            && vrefs.len() == keys.len() && vals.len() == keys.len());
    }
    match r {
        Ok(_) => Ok(map),
        Err(e) => Err(e),
    }
}

/// Moves the read cursor past a mapping: skips each key with `skip_key` and
/// each value with `skip_value`, in turn, each where the previous skip
/// stopped, then checks the terminator where the last value stopped. Stops
/// at the first failure, returning its error.
pub fn skip_map<'a, FK: Fn(&mut &'a [u8]) -> Result<(), Error>, FV: Fn(&mut &'a [u8]) -> Result<(), Error>>(
    reader: &mut &'a [u8],
    skip_key: FK,
    skip_value: FV,
) -> (r: Result<(), Error>)
    requires
        forall|rd: &mut &'a [u8]| #[trigger] skip_key.requires((rd,)),
        forall|rd: &mut &'a [u8]| #[trigger] skip_value.requires((rd,)),
    ensures
        match parse_uint(old(reader)@) {
            Ok((count, n)) => exists|ks: Seq<Seq<u8>>, vs: Seq<Seq<u8>>, krefs: Seq<&mut &'a [u8]>,
                vrefs: Seq<&mut &'a [u8]>, kouts: Seq<Result<(), Error>>, vouts: Seq<Result<(), Error>>|
                #![trigger ks.len(), vs.len(), krefs.len(), vrefs.len(), kouts.len(), vouts.len()]
                ks[0] == old(reader)@.skip(n as int) && ks.len() == kouts.len() + 1 && vs.len() == kouts.len()
                && vouts.len() == kouts.len() && kouts.len() <= count
                && (forall|j: int| #![trigger ks[j]] 0 <= j < kouts.len() ==> pair_skip(skip_key, skip_value, krefs[j], *final(krefs[j]), vrefs[j], *final(vrefs[j]), ks[j], vs[j], ks[j + 1], kouts[j], vouts[j]))
                && if kouts.len() < count {
                    krefs.len() == kouts.len() + 1 && r is Err && (
                        (vrefs.len() == kouts.len() && read_call(skip_key, krefs.last(), *final(krefs.last()),
                            ks.last(), (*final(krefs.last()))@, r))
                        || (vrefs.len() == kouts.len() + 1 && exists|ko: Result<(), Error>| #[trigger] skipped_call(
                            skip_key, krefs.last(), *final(krefs.last()), ks.last(), (*final(krefs.last()))@, ko)
                            && read_call(skip_value, vrefs.last(), *final(vrefs.last()), (*final(krefs.last()))@,
                            (*final(vrefs.last()))@, r)))
                } else {
                    krefs.len() == kouts.len() && vrefs.len() == kouts.len() && (match parse_terminator(ks.last()) {
                        Ok(_) => r is Ok && final(reader)@ == ks.last().skip(4),
                        Err(e) => r == Err::<(), Error>(e),
                    })
                },
            Err(e) => r == Err::<(), Error>(e),
        },
{
    let len = unmarshal_uint(reader)?;
    let ghost mut ks: Seq<Seq<u8>> = seq![reader@];
    let ghost mut vs: Seq<Seq<u8>> = Seq::empty();
    let ghost mut kouts: Seq<Result<(), Error>> = Seq::empty();
    let ghost mut vouts: Seq<Result<(), Error>> = Seq::empty();
    proof {
        let e = Seq::<&mut &'a [u8]>::empty();
        assert(e.len() == 0);
    }
    let mut i: u64 = 0;
    while i < len
        invariant
            i <= len,
            kouts.len() == i,
            vouts.len() == i,
            ks.len() == i + 1,
            vs.len() == i,
            ks.last() == reader@,
            match parse_uint(old(reader)@) {
                Ok((count, n)) => count == len && ks[0] == old(reader)@.skip(n as int),
                Err(_) => false,
            },
            forall|rd: &mut &'a [u8]| #[trigger] skip_key.requires((rd,)),
            forall|rd: &mut &'a [u8]| #[trigger] skip_value.requires((rd,)),
            exists|krefs: Seq<&mut &'a [u8]>, vrefs: Seq<&mut &'a [u8]>| #![trigger krefs.len(), vrefs.len()]
                krefs.len() == i && vrefs.len() == i
                && forall|j: int| #![trigger ks[j]] 0 <= j < i ==> pair_skip(skip_key, skip_value, krefs[j], *final(krefs[j]), vrefs[j], *final(vrefs[j]), ks[j], vs[j], ks[j + 1], kouts[j], vouts[j]),
        decreases len - i,
    {
        let ghost ks0 = ks;
        let ghost vs0 = vs;
        let ghost ko0 = kouts;
        let ghost vo0 = vouts;
        let ghost kpre = reader@;
        let kres = skip_key(reader);
        let ghost vpre = reader@;
        proof {
            assert(exists|t: &mut &'a [u8]| #[trigger] skip_key.ensures((t,), kres) && (*t)@ == kpre
                && (*final(t))@ == vpre);
        }
        if kres.is_err() {
            proof {
                let (krefs0, vrefs0) = choose|krefs: Seq<&mut &'a [u8]>, vrefs: Seq<&mut &'a [u8]>|
                    #![trigger krefs.len(), vrefs.len()] krefs.len() == i && vrefs.len() == i
                && forall|j: int| #![trigger ks[j]] 0 <= j < i ==> pair_skip(skip_key, skip_value, krefs[j], *final(krefs[j]), vrefs[j], *final(vrefs[j]), ks[j], vs[j], ks[j + 1], kouts[j], vouts[j]);
                let t = choose|t: &mut &'a [u8]| #[trigger] skip_key.ensures((t,), kres) && (*t)@ == kpre
                    && (*final(t))@ == vpre;
                let krefs = krefs0.push(t);
                assert forall|j: int| #![trigger ks[j]] 0 <= j < i implies skipped_call(skip_key, krefs[j], *final(krefs[j]), ks[j], vs[j], kouts[j]) && skipped_call(skip_value, vrefs0[j], *final(vrefs0[j]), vs[j], ks[j + 1], vouts[j]) by {
                    assert(krefs0[j] == krefs[j]);
                }
                assert(krefs.last() == t);
                assert(ks.len() == kouts.len() + 1 && vs.len() == kouts.len() && krefs.len() == kouts.len() + 1
                    && vrefs0.len() == kouts.len() && vouts.len() == kouts.len());
            }
            return kres;
        }
        let vres = skip_value(reader);
        proof {
            assert(exists|t: &mut &'a [u8]| #[trigger] skip_value.ensures((t,), vres) && (*t)@ == vpre
                && (*final(t))@ == reader@);
        }
        if vres.is_err() {
            proof {
                let (krefs0, vrefs0) = choose|krefs: Seq<&mut &'a [u8]>, vrefs: Seq<&mut &'a [u8]>|
                    #![trigger krefs.len(), vrefs.len()] krefs.len() == i && vrefs.len() == i
                && forall|j: int| #![trigger ks[j]] 0 <= j < i ==> pair_skip(skip_key, skip_value, krefs[j], *final(krefs[j]), vrefs[j], *final(vrefs[j]), ks[j], vs[j], ks[j + 1], kouts[j], vouts[j]);
                let tk = choose|t: &mut &'a [u8]| #[trigger] skip_key.ensures((t,), kres) && (*t)@ == kpre
                    && (*final(t))@ == vpre;
                let tv = choose|t: &mut &'a [u8]| #[trigger] skip_value.ensures((t,), vres) && (*t)@ == vpre
                    && (*final(t))@ == reader@;
                let krefs = krefs0.push(tk);
                let vrefs = vrefs0.push(tv);
                assert forall|j: int| #![trigger ks[j]] 0 <= j < i implies pair_skip(skip_key, skip_value, krefs[j], *final(krefs[j]), vrefs[j], *final(vrefs[j]), ks[j], vs[j], ks[j + 1], kouts[j], vouts[j]) by {
                    assert(krefs0[j] == krefs[j]);
                    assert(vrefs0[j] == vrefs[j]);
                }
                assert(krefs.last() == tk && vrefs.last() == tv);
                assert(skipped_call(skip_key, krefs.last(), *final(krefs.last()), ks.last(),
                    (*final(krefs.last()))@, kres));
                assert(ks.len() == kouts.len() + 1 && vs.len() == kouts.len() && krefs.len() == kouts.len() + 1
                    && vrefs.len() == kouts.len() + 1 && vouts.len() == kouts.len());
            }
            return vres;
        }
        proof {
            ks = ks.push(reader@);
            vs = vs.push(vpre);
            kouts = kouts.push(kres);
            vouts = vouts.push(vres);
            let (krefs0, vrefs0) = choose|krefs: Seq<&mut &'a [u8]>, vrefs: Seq<&mut &'a [u8]>|
                #![trigger krefs.len(), vrefs.len()] krefs.len() == i && vrefs.len() == i
                && forall|j: int| #![trigger ks0[j]] 0 <= j < i ==> pair_skip(skip_key, skip_value, krefs[j], *final(krefs[j]), vrefs[j], *final(vrefs[j]), ks0[j], vs0[j], ks0[j + 1], ko0[j], vo0[j]);
            let tk = choose|t: &mut &'a [u8]| #[trigger] skip_key.ensures((t,), kres) && (*t)@ == kpre
                && (*final(t))@ == vpre;
            let tv = choose|t: &mut &'a [u8]| #[trigger] skip_value.ensures((t,), vres) && (*t)@ == vpre
                && (*final(t))@ == reader@;
            let krefs = krefs0.push(tk);
            let vrefs = vrefs0.push(tv);
            assert forall|j: int| #![trigger ks[j]] 0 <= j < i + 1 implies pair_skip(skip_key, skip_value, krefs[j], *final(krefs[j]), vrefs[j], *final(vrefs[j]), ks[j], vs[j], ks[j + 1], kouts[j], vouts[j]) by {
                if j < i {
                    assert(ks0[j] == ks[j]);
                    assert(ks0[j + 1] == ks[j + 1]);
                    assert(vs0[j] == vs[j]);
                    assert(ko0[j] == kouts[j]);
                    assert(vo0[j] == vouts[j]);
                    assert(krefs0[j] == krefs[j]);
                    assert(vrefs0[j] == vrefs[j]);
                }
            }
            assert(krefs.len() == i + 1 && vrefs.len() == i + 1);
            assert(exists|krefs: Seq<&mut &'a [u8]>, vrefs: Seq<&mut &'a [u8]>| #![trigger krefs.len(), vrefs.len()]
                krefs.len() == i + 1 && vrefs.len() == i + 1
                && forall|j: int| #![trigger ks[j]] 0 <= j < i + 1 ==> pair_skip(skip_key, skip_value, krefs[j], *final(krefs[j]), vrefs[j], *final(vrefs[j]), ks[j], vs[j], ks[j + 1], kouts[j], vouts[j]));
        }
        i = i + 1;
    }
    let r = check_terminator(reader);
    proof {
        let (krefs, vrefs) = choose|krefs: Seq<&mut &'a [u8]>, vrefs: Seq<&mut &'a [u8]>|
            #![trigger krefs.len(), vrefs.len()] krefs.len() == i && vrefs.len() == i
                && forall|j: int| #![trigger ks[j]] 0 <= j < i ==> pair_skip(skip_key, skip_value, krefs[j], *final(krefs[j]), vrefs[j], *final(vrefs[j]), ks[j], vs[j], ks[j + 1], kouts[j], vouts[j]);
        assert(ks.len() == kouts.len() + 1 && vs.len() == kouts.len() && krefs.len() == kouts.len()
            && vrefs.len() == kouts.len() && vouts.len() == kouts.len());
    }
    r
}

/// `pairs` lists the entries of `m`, each once, in some order.
pub open spec fn enumerates<K, V>(m: Map<K, V>, pairs: Seq<(K, V)>) -> bool {
    &&& pairs.len() == m.dom().len()
    &&& pairs.no_duplicates()
    &&& forall|i: int| 0 <= i < pairs.len() ==> m.contains_key(#[trigger] pairs[i].0) && m[pairs[i].0] == pairs[i].1
}

/// The entries that a `HashMap` iterator yields, as owned pairs.
pub open spec fn entries<K, V>(s: Seq<(&K, &V)>) -> Seq<(K, V)> {
    Seq::new(s.len(), |i: int| (*s[i].0, *s[i].1))
}

/// `ksizes[i]` and `vsizes[i]` are sizes that `kf` and `vf` can return for
/// the key and the value of `pairs[i]`, for each `i`.
pub open spec fn pair_size_run<K, V, FK: Fn(&K) -> usize, FV: Fn(&V) -> usize>(
    kf: FK,
    vf: FV,
    pairs: Seq<(K, V)>,
    ksizes: Seq<usize>,
    vsizes: Seq<usize>,
) -> bool {
    &&& ksizes.len() == pairs.len()
    &&& vsizes.len() == pairs.len()
    &&& forall|i: int| 0 <= i < pairs.len() ==> #[trigger] kf.ensures((&pairs[i].0,), ksizes[i]) && vf.ensures((&pairs[i].1,), vsizes[i])
}

/// Returns the number of bytes that `marshal_map` writes for `map`, the
/// sizers giving the size of each key and value: the count, the keys' and
/// values' sizes and the terminator.
pub fn size_map<K, V, FK: Fn(&K) -> usize, FV: Fn(&V) -> usize>(map: &HashMap<K, V>, k_sizer: FK, v_sizer: FV) -> (r: usize)
    requires
        obeys_key_model::<K>(),
        forall|x: &K| #[trigger] k_sizer.requires((x,)),
        forall|x: &V| #[trigger] v_sizer.requires((x,)),
        forall|pairs: Seq<(K, V)>, ksizes: Seq<usize>, vsizes: Seq<usize>|
            pairs.len() <= map@.dom().len()
            && (forall|i: int| 0 <= i < pairs.len() ==> map@.contains_key(#[trigger] pairs[i].0))
            && #[trigger] pair_size_run(k_sizer, v_sizer, pairs, ksizes, vsizes)
            ==> sum_of(ksizes) + sum_of(vsizes) + 14 <= usize::MAX,
    ensures
        exists|pairs: Seq<(K, V)>, ksizes: Seq<usize>, vsizes: Seq<usize>|
            enumerates(map@, pairs) && #[trigger] pair_size_run(k_sizer, v_sizer, pairs, ksizes, vsizes)
            && r == uint_bytes(map@.dom().len() as u64).len() + sum_of(ksizes) + sum_of(vsizes) + 4,
{
    broadcast use vstd::std_specs::hash::group_hash_axioms;
    let len = map.len();
    let ghost mut ksizes: Seq<usize> = Seq::empty();
    let ghost mut vsizes: Seq<usize> = Seq::empty();
    let mut total: usize = 0;
    for kv in it: map.iter()
        invariant
            obeys_key_model::<K>(),
            len == map@.dom().len(),
            it.seq().len() == map@.dom().len(),
            pair_size_run(k_sizer, v_sizer, entries(it.seq()).take(it.index() as int), ksizes, vsizes),
            total == sum_of(ksizes) + sum_of(vsizes),
            forall|i: int| 0 <= i < it.seq().len() ==> map@.contains_key(#[trigger] entries(it.seq())[i].0)
                && map@[entries(it.seq())[i].0] == entries(it.seq())[i].1,
            forall|x: &K| #[trigger] k_sizer.requires((x,)),
            forall|x: &V| #[trigger] v_sizer.requires((x,)),
            forall|pairs: Seq<(K, V)>, ksizes: Seq<usize>, vsizes: Seq<usize>|
                pairs.len() <= map@.dom().len()
                && (forall|i: int| 0 <= i < pairs.len() ==> map@.contains_key(#[trigger] pairs[i].0))
                && #[trigger] pair_size_run(k_sizer, v_sizer, pairs, ksizes, vsizes)
                ==> sum_of(ksizes) + sum_of(vsizes) + 14 <= usize::MAX,
    {
        let (k, v) = kv;
        let a = k_sizer(k);
        let b = v_sizer(v);
        proof {
            let idx = it.index() as int;
            let all = entries(it.seq());
            let kprev = ksizes;
            let vprev = vsizes;
            ksizes = ksizes.push(a);
            vsizes = vsizes.push(b);
            assert(ksizes.drop_last() == kprev);
            assert(vsizes.drop_last() == vprev);
            assert forall|j: int| 0 <= j < idx + 1 implies #[trigger] k_sizer.ensures((&all.take(idx + 1)[j].0,), ksizes[j])
                && v_sizer.ensures((&all.take(idx + 1)[j].1,), vsizes[j]) by {
                if j < idx {
                    assert(all.take(idx + 1)[j] == all.take(idx)[j]);
                } else {
                    assert(it.seq()[idx] == kv);
                    assert(all.take(idx + 1)[j] == all[idx]);
                }
            }
            assert(pair_size_run(k_sizer, v_sizer, all.take(idx + 1), ksizes, vsizes));
        }
        total = total + a + b;
    }
    proof {
        lemma_pow128_values();
        lemma_uint_bytes_len(len as u64, 10);
    }
    size_uint(len as u64) + total + TERMINATOR_LEN
}

/// A key written by `kf` through `kr`, then its value by `vf` through `vr`
/// where `kr` ended, both successfully: `kr` stood on `start` and `vr` ends
/// up on `rest`; the slice `kr` stood on ends up holding `fstart` and the
/// one `vr` ends up on holds `frest`.
pub open spec fn pair_step<K, V, FK: Fn(&K, &mut &mut [u8]) -> Result<(), Error>, FV: Fn(&V, &mut &mut [u8]) -> Result<(), Error>>(
    kf: FK,
    vf: FV,
    key: K,
    val: V,
    kr: &mut &mut [u8],
    kafter: &mut [u8],
    kfilled: Seq<u8>,
    ktail: Seq<u8>,
    vr: &mut &mut [u8],
    vafter: &mut [u8],
    vfilled: Seq<u8>,
    vtail: Seq<u8>,
    start: Seq<u8>,
    rest: Seq<u8>,
    fstart: Seq<u8>,
    frest: Seq<u8>,
) -> bool {
    &&& exists|o: Result<(), Error>| #[trigger] kf.ensures((&key, kr), o) && o is Ok
    &&& exists|o: Result<(), Error>| #[trigger] vf.ensures((&val, vr), o) && o is Ok
    &&& (*kr)@ == start
    &&& kafter@ == (*vr)@
    &&& vafter@ == rest
    &&& kfilled == fstart
    &&& ktail == vfilled
    &&& vtail == frest
}

/// Writes a key with `k_marshaler`, then, if that succeeds, its value with
/// `v_marshaler` where the key ended.
fn write_pair<K, V, FK: Fn(&K, &mut &mut [u8]) -> Result<(), Error>, FV: Fn(&V, &mut &mut [u8]) -> Result<(), Error>>(
    k: &K,
    v: &V,
    writer: &mut &mut [u8],
    k_marshaler: &FK,
    v_marshaler: &FV,
) -> (r: Result<(), Error>)
    requires
        forall|x: &K, w: &mut &mut [u8]| #[trigger] k_marshaler.requires((x, w)),
        forall|x: &V, w: &mut &mut [u8]| #[trigger] v_marshaler.requires((x, w)),
    ensures
        r is Ok ==> exists|kr: &mut &mut [u8], vr: &mut &mut [u8]| #[trigger] pair_step(*k_marshaler, *v_marshaler,
            *k, *v, kr, *final(kr), final(*kr)@, final(*final(kr))@, vr, *final(vr), final(*vr)@, final(*final(vr))@,
            old(writer)@, final(writer)@, final(*old(writer))@, final(*final(writer))@),
        r is Err ==> (exists|w: &mut &mut [u8]| #[trigger] k_marshaler.ensures((k, w), r) && (*w)@ == old(writer)@)
            || (exists|w: &mut &mut [u8]| #[trigger] v_marshaler.ensures((v, w), r)),
{
    let ghost kpre = writer@;
    let ghost fkpre = final(*writer)@;
    let kres = k_marshaler(k, writer);
    let ghost vpre = writer@;
    let ghost fvpre = final(*writer)@;
    proof {
        assert(exists|t: &mut &mut [u8]| #[trigger] k_marshaler.ensures((k, t), kres)
            && (*t)@ == kpre && (*final(t))@ == vpre && final(*t)@ == fkpre && final(*final(t))@ == fvpre);
    }
    if kres.is_err() {
        return kres;
    }
    let vres = v_marshaler(v, writer);
    proof {
        assert(exists|t: &mut &mut [u8]| #[trigger] v_marshaler.ensures((v, t), vres)
            && (*t)@ == vpre && (*final(t))@ == writer@ && final(*t)@ == fvpre
            && final(*final(t))@ == final(*writer)@);
        if vres is Ok {
            let tk = choose|t: &mut &mut [u8]| #[trigger] k_marshaler.ensures((k, t), kres)
                && (*t)@ == kpre && (*final(t))@ == vpre && final(*t)@ == fkpre && final(*final(t))@ == fvpre;
            let tv = choose|t: &mut &mut [u8]| #[trigger] v_marshaler.ensures((v, t), vres)
                && (*t)@ == vpre && (*final(t))@ == writer@ && final(*t)@ == fvpre
                && final(*final(t))@ == final(*writer)@;
            assert(pair_step(*k_marshaler, *v_marshaler, *k, *v, tk, *final(tk), final(*tk)@, final(*final(tk))@, tv,
                *final(tv), final(*tv)@, final(*final(tv))@, kpre, writer@, fkpre, final(*writer)@));
        }
    }
    vres
}

/// The entries of `map` as a vector of borrowed pairs, in the order in
/// which the map yields them.
fn entry_list<K, V>(map: &HashMap<K, V>) -> (r: Vec<(&K, &V)>)
    requires
        obeys_key_model::<K>(),
    ensures
        enumerates(map@, entries(r@)),
        r@.len() == map@.dom().len(),
{
    broadcast use vstd::std_specs::hash::group_hash_axioms;
    let mut out: Vec<(&K, &V)> = Vec::new();
    for kv in it: map.iter()
        invariant
            obeys_key_model::<K>(),
            it.seq().len() == map@.dom().len(),
            enumerates(map@, entries(it.seq())),
            out@ == it.seq().take(it.index() as int),
    {
        out.push(kv);
        proof {
            assert(out@ == it.seq().take(it.index() + 1));
        }
    }
    proof {
        assert(out@.len() == map@.dom().len());
    }
    out
}

/// Writes a mapping: its size as a varint, then, in the order the map
/// yields its entries, each key with `k_marshaler` and its value with
/// `v_marshaler`, each where the previous write stopped, then the
/// terminator. Fails with `BufferTooSmall` when the count, or the terminator
/// after the last value, does not fit, and otherwise with the error that a
/// key or value call returned.
pub fn marshal_map<K, V, FK: Fn(&K, &mut &mut [u8]) -> Result<(), Error>, FV: Fn(&V, &mut &mut [u8]) -> Result<(), Error>>(
    map: &HashMap<K, V>,
    writer: &mut &mut [u8],
    k_marshaler: FK,
    v_marshaler: FV,
) -> (r: Result<(), Error>)
    requires
        obeys_key_model::<K>(),
        forall|x: &K, w: &mut &mut [u8]| #[trigger] k_marshaler.requires((x, w)),
        forall|x: &V, w: &mut &mut [u8]| #[trigger] v_marshaler.requires((x, w)),
    ensures
        ({
            let u = uint_bytes(map@.dom().len() as u64);
            if u.len() > old(writer)@.len() {
                r == Err::<(), Error>(Error::BufferTooSmall)
            } else {
                exists|all: Seq<(K, V)>, ks: Seq<Seq<u8>>, kfl: Seq<Seq<u8>>,
                    prefs: Seq<(&mut &mut [u8], &mut &mut [u8])>|
                    #![trigger all.len(), ks.len(), kfl.len(), prefs.len()]
                    enumerates(map@, all) && ks.len() == prefs.len() + 1 && kfl.len() == prefs.len() + 1
                    && prefs.len() <= all.len()
                    && ks[0] == old(writer)@.skip(u.len() as int) && final(*old(writer))@ == u + kfl[0]
                    && (forall|j: int| #![trigger ks[j]] 0 <= j < prefs.len() ==> pair_step(k_marshaler, v_marshaler, all[j].0, all[j].1, prefs[j].0, *final(prefs[j].0), final(*prefs[j].0)@,
                    final(*final(prefs[j].0))@, prefs[j].1, *final(prefs[j].1), final(*prefs[j].1)@,
                    final(*final(prefs[j].1))@, ks[j], ks[j + 1], kfl[j], kfl[j + 1]))
                    && if prefs.len() < all.len() {
                        r is Err && ((exists|w: &mut &mut [u8]| #[trigger] k_marshaler.ensures((&all[prefs.len() as int].0, w), r)
                            && (*w)@ == ks.last())
                            || (exists|w: &mut &mut [u8]| #[trigger] v_marshaler.ensures((&all[prefs.len() as int].1, w), r)))
                    } else {
                        if ks.last().len() < 4 {
                            r == Err::<(), Error>(Error::BufferTooSmall)
                        } else {
                            r is Ok && kfl.last() == terminator() + final(*final(writer))@
                                && final(writer)@ == ks.last().skip(4)
                        }
                    }
            }
        }),
{
    let ghost u = uint_bytes(map@.dom().len() as u64);
    let list = entry_list(map);
    let len = list.len();
    let ghost all = entries(list@);
    marshal_uint(len as u64, writer)?;
    let ghost mut ks: Seq<Seq<u8>> = seq![writer@];
    proof {
        let e = Seq::<(&mut &mut [u8], &mut &mut [u8])>::empty();
        let kfl = seq![final(*writer)@];
        assert(e.len() == 0 && kfl.len() == 1);
    }
    let mut i: usize = 0;
    while i < len
        invariant
            i <= len,
            len == list@.len(),
            all == entries(list@),
            all.len() == len,
            enumerates(map@, all),
            u == uint_bytes(map@.dom().len() as u64),
            len == map@.dom().len(),
            u.len() <= old(writer)@.len(),
            ks.len() == i + 1,
            ks[0] == old(writer)@.skip(u.len() as int),
            ks.last() == writer@,
            forall|x: &K, w: &mut &mut [u8]| #[trigger] k_marshaler.requires((x, w)),
            forall|x: &V, w: &mut &mut [u8]| #[trigger] v_marshaler.requires((x, w)),
            exists|prefs: Seq<(&mut &mut [u8], &mut &mut [u8])>, kfl: Seq<Seq<u8>>| #![trigger prefs.len(), kfl.len()]
                prefs.len() == i && kfl.len() == i + 1 && final(*old(writer))@ == u + kfl[0] && kfl.last() == final(*writer)@
                && forall|j: int| #![trigger ks[j]] 0 <= j < i ==> pair_step(k_marshaler, v_marshaler, all[j].0, all[j].1, prefs[j].0, *final(prefs[j].0), final(*prefs[j].0)@,
                    final(*final(prefs[j].0))@, prefs[j].1, *final(prefs[j].1), final(*prefs[j].1)@,
                    final(*final(prefs[j].1))@, ks[j], ks[j + 1], kfl[j], kfl[j + 1]),
        decreases len - i,
    {
        let ghost ks0 = ks;
        let ghost fpre = final(*writer)@;
        let (k, v) = list[i];
        proof {
            assert(all[i as int] == (*k, *v));
        }
        let res = write_pair(k, v, writer, &k_marshaler, &v_marshaler);
        if res.is_err() {
            proof {
                let (prefs, kfl) = choose|prefs: Seq<(&mut &mut [u8], &mut &mut [u8])>, kfl: Seq<Seq<u8>>|
                    #![trigger prefs.len(), kfl.len()] prefs.len() == i && kfl.len() == i + 1 && final(*old(writer))@ == u + kfl[0] && kfl.last() == fpre
                && forall|j: int| #![trigger ks[j]] 0 <= j < i ==> pair_step(k_marshaler, v_marshaler, all[j].0, all[j].1, prefs[j].0, *final(prefs[j].0), final(*prefs[j].0)@,
                    final(*final(prefs[j].0))@, prefs[j].1, *final(prefs[j].1), final(*prefs[j].1)@,
                    final(*final(prefs[j].1))@, ks[j], ks[j + 1], kfl[j], kfl[j + 1]);
                assert(all.len() == len && ks.len() == prefs.len() + 1 && kfl.len() == prefs.len() + 1);
                if exists|w: &mut &mut [u8]| #[trigger] k_marshaler.ensures((k, w), res) && (*w)@ == ks.last() {
                    let w = choose|w: &mut &mut [u8]| #[trigger] k_marshaler.ensures((k, w), res) && (*w)@ == ks.last();
                    assert(k_marshaler.ensures((&all[prefs.len() as int].0, w), res));
                } else {
                    let w = choose|w: &mut &mut [u8]| #[trigger] v_marshaler.ensures((v, w), res);
                    assert(v_marshaler.ensures((&all[prefs.len() as int].1, w), res));
                }
            }
            return res;
        }
        proof {
            ks = ks.push(writer@);
        }
        proof {
            let (prefs0, kfl0) = choose|prefs: Seq<(&mut &mut [u8], &mut &mut [u8])>, kfl: Seq<Seq<u8>>|
                #![trigger prefs.len(), kfl.len()] prefs.len() == i && kfl.len() == i + 1 && final(*old(writer))@ == u + kfl[0] && kfl.last() == fpre
                && forall|j: int| #![trigger ks0[j]] 0 <= j < i ==> pair_step(k_marshaler, v_marshaler, all[j].0, all[j].1, prefs[j].0, *final(prefs[j].0), final(*prefs[j].0)@,
                    final(*final(prefs[j].0))@, prefs[j].1, *final(prefs[j].1), final(*prefs[j].1)@,
                    final(*final(prefs[j].1))@, ks0[j], ks0[j + 1], kfl[j], kfl[j + 1]);
            let (kr, vr) = choose|kr: &mut &mut [u8], vr: &mut &mut [u8]| #[trigger] pair_step(k_marshaler, v_marshaler,
                *k, *v, kr, *final(kr), final(*kr)@, final(*final(kr))@, vr, *final(vr), final(*vr)@,
                final(*final(vr))@, ks0.last(), writer@, fpre, final(*writer)@);
            let prefs = prefs0.push((kr, vr));
            let kfl = kfl0.push(final(*writer)@);
            assert forall|j: int| #![trigger ks[j]] 0 <= j < i + 1 implies pair_step(k_marshaler, v_marshaler, all[j].0, all[j].1, prefs[j].0, *final(prefs[j].0), final(*prefs[j].0)@,
                    final(*final(prefs[j].0))@, prefs[j].1, *final(prefs[j].1), final(*prefs[j].1)@,
                    final(*final(prefs[j].1))@, ks[j], ks[j + 1], kfl[j], kfl[j + 1]) by {
                if j < i {
                    assert(ks0[j] == ks[j]);
                    assert(ks0[j + 1] == ks[j + 1]);
                    assert(prefs0[j] == prefs[j]);
                    assert(kfl0[j] == kfl[j]);
                    assert(kfl0[j + 1] == kfl[j + 1]);
                }
            }
            assert(prefs.len() == i + 1 && kfl.len() == i + 2);
            assert(exists|prefs: Seq<(&mut &mut [u8], &mut &mut [u8])>, kfl: Seq<Seq<u8>>| #![trigger prefs.len(), kfl.len()]
                prefs.len() == i + 1 && kfl.len() == i + 2 && final(*old(writer))@ == u + kfl[0] && kfl.last() == final(*writer)@
                && forall|j: int| #![trigger ks[j]] 0 <= j < i + 1 ==> pair_step(k_marshaler, v_marshaler, all[j].0, all[j].1, prefs[j].0, *final(prefs[j].0), final(*prefs[j].0)@,
                    final(*final(prefs[j].0))@, prefs[j].1, *final(prefs[j].1), final(*prefs[j].1)@,
                    final(*final(prefs[j].1))@, ks[j], ks[j + 1], kfl[j], kfl[j + 1]));
        }
        i = i + 1;
    }
    let ghost flast = final(*writer)@;
    let r = write_terminator(writer);
    proof {
        let (prefs, kfl) = choose|prefs: Seq<(&mut &mut [u8], &mut &mut [u8])>, kfl: Seq<Seq<u8>>|
            #![trigger prefs.len(), kfl.len()] prefs.len() == i && kfl.len() == i + 1 && final(*old(writer))@ == u + kfl[0] && kfl.last() == flast
                && forall|j: int| #![trigger ks[j]] 0 <= j < i ==> pair_step(k_marshaler, v_marshaler, all[j].0, all[j].1, prefs[j].0, *final(prefs[j].0), final(*prefs[j].0)@,
                    final(*final(prefs[j].0))@, prefs[j].1, *final(prefs[j].1), final(*prefs[j].1)@,
                    final(*final(prefs[j].1))@, ks[j], ks[j + 1], kfl[j], kfl[j + 1]);
        assert(all.len() == len && ks.len() == prefs.len() + 1 && kfl.len() == prefs.len() + 1);
    }
    r
}

} // verus!
