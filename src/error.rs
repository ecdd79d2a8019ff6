use vstd::prelude::*;

verus! {

/// Why a message could not be decoded or encoded.
#[derive(Clone, Copy, Debug, PartialEq, Eq, Structural)]
pub enum DnsError {
    /// Fewer bits remain in the buffer than the next field needs.
    UnexpectedEndOfBuffer,
    /// A label of a name is not valid UTF-8 text.
    MalformedText,
    /// The 4-bit opcode is not one of the supported operations.
    UnsupportedOpcode,
    /// The 4-bit response code is not one of the supported codes.
    UnsupportedRcode,
    /// The 16-bit record type is neither A nor CNAME.
    UnsupportedType,
    /// The 16-bit record class is not IN.
    UnsupportedClass,
    /// A name follows more compression pointers than the packet has bytes,
    /// which only a pointer cycle can cause.
    PointerLoop,
    /// The record data cannot be read as the record's type asks
    /// (an A record needs at least four bytes).
    MalformedRdata,
    /// A label of a name to encode is longer than 63 bytes.
    LabelTooLong,
    /// The encoded message would exceed the bit-vector's capacity.
    MessageTooLong,
    /// A record-type name is neither `A` nor `CNAME`.
    UnknownTypeName,
    /// Answers are only ever decoded: a message that holds one cannot be
    /// encoded.
    AnswerEncodingUnsupported,
    /// Bytes remain after the last record while the header declares no
    /// authority or additional records.
    CountMismatch,
}

} // verus!
