use vstd::prelude::*;

verus! {

/// The failures that a codec reports. None of them is worth a retry: each
/// means that the input is malformed or truncated, or that the destination
/// buffer was sized wrongly.
#[derive(Debug, PartialEq, Eq)]
pub enum Error {
    /// Fewer bytes remain than the operation needs, when reading or writing.
    BufferTooSmall,
    /// A varint does not fit in 64 bits.
    VarintOverflow,
    /// A string payload is not well-formed UTF-8.
    InvalidUtf8(std::str::Utf8Error),
    /// The four bytes after a sequence or a mapping are not the terminator.
    MissingTerminator,
    /// A decoded value does not fit the narrower integer type asked for.
    OutOfRange,
}

#[verifier::external_type_specification]
#[verifier::external_body]
pub struct ExUtf8Error(std::str::Utf8Error);

} // verus!
