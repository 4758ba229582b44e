use vstd::prelude::*;

verus! {

/// The error kinds that the delta engine and its callers report. The kinds
/// are flat: no kind wraps another.
#[derive(Debug, Clone, Copy, PartialEq, Eq, Structural)]
pub enum AppError {
    /// An underlying file read or write failed.
    IOError,
    /// A strong digest had an unexpected length.
    TryFromSliceError,
    /// Reserved: in practice `IncompatibleDataSize` is reported instead.
    FileTooShort,
    /// Encoding or decoding of a signature or delta failed.
    SerializeError,
    /// The chunk size given differs from the one the signature was built with.
    IncompatibleChunkSize,
    /// An input buffer was shorter than twice the chunk size.
    IncompatibleDataSize,
    /// A weak-hash hit had no unique strong-hash survivor in its bucket.
    IndexCorrupted,
}

impl AppError {
    /// A human-readable account of the error, for the command-line surface.
    pub fn description(&self) -> &'static str {
        match self {
            AppError::IOError => "reading or writing a file failed",
            AppError::TryFromSliceError => "a strong digest had an unexpected length",
            AppError::FileTooShort => "File to small for processing, please provide bigger one or descrease the block size",
            AppError::SerializeError => "encoding or decoding of a signature or delta failed",
            AppError::IncompatibleChunkSize => "Current chunk size differes from the one for which signature was built",
            AppError::IncompatibleDataSize => "Too small chunk of data for processing: Please provide the file which has at list 2 * chunk_size bytes",
            AppError::IndexCorrupted => "Something went wrong please or signature file corrupted",
        }
    }
}

} // verus!
