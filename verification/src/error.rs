use vstd::prelude::*;

verus! {

/// The error kinds the library surfaces to its callers.
#[derive(Clone, Copy, Debug, PartialEq, Eq, Structural)]
pub enum CodexFsError {
    /// A read or write fell outside the backing image.
    IoError,
    /// The image bytes do not form a well-formed filesystem.
    FormatError,
    /// The compressor or decompressor reported an error.
    CodecError,
    /// A device, fifo or socket node was found in the source tree.
    UnsupportedFileType,
}

impl CodexFsError {
    pub fn describe(self) -> (r: &'static str)
        ensures
            r@.len() > 0,
    {
        let r = match self {
            CodexFsError::IoError => "backing image read or write out of range",
            CodexFsError::FormatError => "malformed filesystem image",
            CodexFsError::CodecError => "compressor or decompressor failure",
            CodexFsError::UnsupportedFileType => "unsupported source file type",
        };
        proof {
            reveal_strlit("backing image read or write out of range");
            reveal_strlit("malformed filesystem image");
            reveal_strlit("compressor or decompressor failure");
            reveal_strlit("unsupported source file type");
        }
        r
    }
}

} // verus!
