use vstd::prelude::*;

verus! {

/// Why packing or unpacking stopped.
#[derive(Clone, Copy, Debug, PartialEq, Eq, Structural)]
pub enum ArchiveError {
    /// The bytes are not the structured encoding that was expected there.
    Decode,
    /// The compressor failed, or a block did not expand to the recorded size.
    Compression,
    /// An entry's range does not lie inside the body.
    OutOfRange,
    /// The body would grow past what a 32-bit offset can address.
    TooLarge,
    /// A document's text is not in the text format, or a value has no text.
    Text,
    /// A value has no structured encoding.
    Encode,
}

impl ArchiveError {
    /// A one-line description for the user.
    pub fn message(&self) -> (s: &'static str)
        ensures
            s@ == Self::text(*self),
    {
        match self {
            ArchiveError::Decode => "malformed encoded value",
            ArchiveError::Compression => "compressed block is corrupt",
            ArchiveError::OutOfRange => "entry lies outside the archive body",
            ArchiveError::TooLarge => "archive body exceeds 32-bit offsets",
            ArchiveError::Text => "document is not valid text",
            ArchiveError::Encode => "value cannot be encoded",
        }
    }

    /// The text that `message` returns.
    pub open spec fn text(e: ArchiveError) -> Seq<char> {
        match e {
            ArchiveError::Decode => "malformed encoded value"@,
            ArchiveError::Compression => "compressed block is corrupt"@,
            ArchiveError::OutOfRange => "entry lies outside the archive body"@,
            ArchiveError::TooLarge => "archive body exceeds 32-bit offsets"@,
            ArchiveError::Text => "document is not valid text"@,
            ArchiveError::Encode => "value cannot be encoded"@,
        }
    }
}

} // verus!
