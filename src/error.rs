use vstd::prelude::*;

verus! {

/// Why the wire codec refused a `Certificate` payload or a value to write.
#[derive(PartialEq, Eq, Structural, Clone, Copy, Debug)]
pub enum WireError {
    /// Fewer bytes remain than the length prefix needs.
    ShortHeader,
    /// A length prefix runs past the end of the buffer.
    Overflow,
    /// Bytes remain after the certificate list.
    TrailingData,
    /// The certificate list does not end exactly with its last entry.
    TruncatedEntry,
    /// A length does not fit in its fixed-width field.
    ValueTooLarge,
}

/// The faults that the codec reports to its callers.
#[derive(PartialEq, Eq, Structural, Clone, Copy, Debug)]
pub enum CodecError {
    /// The input is not a well-formed `Certificate` payload.
    MalformedInput,
    /// A length would overflow its fixed-width field on output.
    ValueTooLarge,
    /// The output would exceed the caller's size cap.
    OutputTooLarge,
    /// The entropy coder refused the input or failed.
    CoderFailure,
}

} // verus!
