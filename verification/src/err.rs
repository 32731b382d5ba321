//! Error taxonomy of the codec.

use vstd::prelude::*;

verus! {

/// Everything that can go wrong while resolving, decoding, constructing or
/// encoding a message.
#[derive(Clone, Copy, PartialEq, Eq, Debug, Structural)]
pub enum Error {
    /// No descriptor is registered under the requested name or wire id.
    NotFound,
    /// A varint ran past the byte budget of its integer width.
    MalformedVarint,
    /// The buffer ended in the middle of a value.
    TruncatedInput,
    /// The wire type found on the buffer disagrees with the field's declared
    /// kind, or an unknown field carries a wire type that cannot be skipped.
    WireTypeMismatch,
    /// A supplied field name does not exist on the descriptor.
    UnknownFieldName,
    /// A value does not fit the declared kind of its field.
    TypeMismatch,
    /// A required field was missing once the whole buffer was consumed.
    MissingRequiredField,
    /// The encode target is smaller than the computed encoded length.
    BufferTooSmall,
    /// The write pass disagreed with the length pass; never returned by a
    /// verified caller, kept so that the defect would be reported rather
    /// than silently truncated.
    EncodeLengthMismatch,
    /// Nested messages exceeded the fixed maximum nesting depth.
    NestingTooDeep,
    /// The encoded length does not fit the machine's byte-count range.
    LengthOverflow,
}

} // verus!
