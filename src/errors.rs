use vstd::prelude::*;

verus! {

/// Ways in which decoding a message or reading a value as text can fail.
#[derive(Debug, PartialEq, Eq, Structural)]
pub enum FixSerializeError {
    /// The buffer holds no version field (tag 8).
    VersionTagNotFoundInSource,
    /// The buffer holds no message-type field (tag 35).
    MessageTypeTagNotFoundInSource,
    /// Checksum validation was asked for, but the buffer holds no checksum field (tag 10).
    CheckSumTagNotFoundInSource,
    /// The checksum field does not match the checksum computed over the message.
    InvalidCheckSum,
    /// A value read as text is not valid UTF-8.
    InvalidEncoding,
}

} // verus!
