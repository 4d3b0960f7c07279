use vstd::prelude::*;

verus! {

/// The ways reading or writing an ANCF1 container can fail.
///
/// Every failure surfaces to the caller; none is recovered internally.
#[derive(Clone, Copy, Debug, PartialEq, Eq, Structural)]
pub enum AncfError {
    /// The underlying byte store is too short for a requested read.
    Io,
    /// The first 14 bytes of the file are not the ANCF1 magic.
    InvalidMagic,
    /// The header's format version is not 1.
    UnsupportedVersion,
    /// The provided codec's id differs from the header's codec id.
    CodecMismatch,
    /// No codec is registered under the requested id.
    UnknownCodecId,
    /// A block index is at or past the block count, or a range start is at or
    /// past the raw size.
    OutOfRange,
    /// The stored checksum differs from the recomputed checksum of the
    /// compressed payload.
    ChecksumMismatch,
    /// The on-disk 2-byte metadata prefix disagrees with the index entry.
    MetadataLenMismatch,
    /// The codec produced a block whose length differs from the recorded
    /// raw length.
    SizeMismatch,
    /// The codec itself failed to compress or decompress.
    CodecError,
}

impl AncfError {
    /// A short description of the failure, in place of a `Display` impl.
    pub fn message(&self) -> (r: &'static str) {
        match self {
            AncfError::Io => "i/o failure: byte store too short",
            AncfError::InvalidMagic => "invalid ANCF magic bytes - not an ANCF1 file",
            AncfError::UnsupportedVersion => "unsupported ANCF version (only version 1 is supported)",
            AncfError::CodecMismatch => "codec mismatch: file codec id differs from the provided codec's id",
            AncfError::UnknownCodecId => "unknown codec id",
            AncfError::OutOfRange => "block index or range start out of range",
            AncfError::ChecksumMismatch => "block checksum mismatch",
            AncfError::MetadataLenMismatch => "block metadata length prefix disagrees with the index entry",
            AncfError::SizeMismatch => "block decompressed to an unexpected size",
            AncfError::CodecError => "codec failure",
        }
    }
}

} // verus!
