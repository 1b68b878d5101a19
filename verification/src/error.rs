//! What can go wrong while bytes are decoded or an image is prepared.

use vstd::prelude::*;

verus! {

/// The failures of this library's readers and codecs.
#[derive(Debug, Clone, Copy, PartialEq, Eq, Structural)]
pub enum ProtocolError {
    /// The input ends before the value does.
    UnexpectedEof,
    /// Five varint bytes in a row have their continuation bit set.
    VarintTooLong,
    /// A varint encodes a value above `0xFFFF_FFFF`.
    VarintOverflow,
    /// A varint ends in a zero group that a shorter encoding would leave out.
    VarintNotCanonical,
    /// A request sets flag bits that are reserved.
    ReservedRequestFlags,
    /// A packet or catalog entry sets the encryption bit.
    EncryptedFlag,
    /// A packet or catalog entry sets flag bits that are reserved.
    ReservedFlags,
    /// An ERROR response carries a code that is not assigned.
    UnknownErrorCode,
    /// A response starts with another magic header than the one expected.
    UnexpectedHeader,
    /// The size of an image's file is not known.
    SizeUnavailable,
    /// Image data could not be compressed.
    CompressionFailed,
    /// Image data is marked as compressed and could not be decompressed.
    DecompressionFailed,
    /// Text is no PEM, or holds malformed sections.
    MalformedPem,
    /// PEM text holds no private key.
    NoPrivateKey,
    /// The hash of the image data is not the ImageID it was sent under.
    ImageIdMismatch { expected: u64, computed: u64 },
}

impl ProtocolError {
    /// A short description for logs.
    pub fn message(&self) -> (text: &'static str)
        ensures
            text@ == (match *self {
                ProtocolError::UnexpectedEof => "unexpected end of input"@,
                ProtocolError::VarintTooLong => "varint u32 too long"@,
                ProtocolError::VarintOverflow => "varint exceeds u32"@,
                ProtocolError::VarintNotCanonical => "varint is not canonical"@,
                ProtocolError::ReservedRequestFlags => "reserved request flags are set"@,
                ProtocolError::EncryptedFlag => "unsupported flags (encryption not implemented)"@,
                ProtocolError::ReservedFlags => "reserved flags are set"@,
                ProtocolError::UnknownErrorCode => "unknown error code"@,
                ProtocolError::UnexpectedHeader => "unexpected response header"@,
                ProtocolError::SizeUnavailable => "image file size unavailable"@,
                ProtocolError::CompressionFailed => "compression failed"@,
                ProtocolError::DecompressionFailed => "decompression failed"@,
                ProtocolError::MalformedPem => "malformed PEM"@,
                ProtocolError::NoPrivateKey => "no private key"@,
                ProtocolError::ImageIdMismatch { .. } => "ImageID mismatch: corrupt packet"@,
            }),
    {
        match self {
            ProtocolError::UnexpectedEof => "unexpected end of input",
            ProtocolError::VarintTooLong => "varint u32 too long",
            ProtocolError::VarintOverflow => "varint exceeds u32",
            ProtocolError::VarintNotCanonical => "varint is not canonical",
            ProtocolError::ReservedRequestFlags => "reserved request flags are set",
            ProtocolError::EncryptedFlag => "unsupported flags (encryption not implemented)",
            ProtocolError::ReservedFlags => "reserved flags are set",
            ProtocolError::UnknownErrorCode => "unknown error code",
            ProtocolError::UnexpectedHeader => "unexpected response header",
            ProtocolError::SizeUnavailable => "image file size unavailable",
            ProtocolError::CompressionFailed => "compression failed",
            ProtocolError::DecompressionFailed => "decompression failed",
            ProtocolError::MalformedPem => "malformed PEM",
            ProtocolError::NoPrivateKey => "no private key",
            ProtocolError::ImageIdMismatch { .. } => "ImageID mismatch: corrupt packet",
        }
    }
}

} // verus!
