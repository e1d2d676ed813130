//! What can go wrong.

use vstd::prelude::*;

verus! {

/// The errors of the library.
#[derive(Debug, Clone, Copy, PartialEq, Eq, Structural)]
pub enum Error {
    /// No drive interface.
    NoInterface,
    /// Unable to allocate the required size of buffer.
    OutOfMemory,
    /// The file is not a CHD file.
    InvalidFile,
    /// An argument is out of its range.
    InvalidParameter,
    /// The data does not fit together.
    InvalidData,
    /// The file was not found.
    FileNotFound,
    /// The CHD file needs its parent.
    RequiresParent,
    /// The file cannot be written.
    FileNotWriteable,
    /// Reading failed, or went past the end.
    ReadError,
    /// Writing failed.
    WriteError,
    /// A codec could not be used.
    CodecError,
    /// The parent given is not the parent of the file.
    InvalidParent,
    /// There is no hunk with the number requested.
    HunkOutOfRange,
    /// A hunk could not be decompressed.
    DecompressionError,
    /// A hunk could not be compressed.
    CompressionError,
    /// The file could not be made.
    CantCreateFile,
    /// The file cannot be verified.
    CantVerify,
    /// The operation is not supported.
    NotSupported,
    /// There is no such metadata.
    MetadataNotFound,
    /// The metadata has the wrong size.
    InvalidMetadataSize,
    /// The version of the file is not supported.
    UnsupportedVersion,
    /// Verification did not come to an end.
    VerifyIncomplete,
    /// The metadata is malformed.
    InvalidMetadata,
    /// The object is in the wrong state.
    InvalidState,
    /// An operation is pending.
    OperationPending,
    /// The format or codec is not supported.
    UnsupportedFormat,
    /// Unknown error.
    Unknown,
    /// The operation was cancelled.
    Cancelled,
}

} // verus!
