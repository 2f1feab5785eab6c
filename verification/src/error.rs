//! The failures that reading or writing an image can end in.

use vstd::prelude::*;

verus! {

/// The errors that may occur when processing an image.
#[derive(Debug, Clone, Copy, PartialEq, Eq, Structural)]
pub enum Error {
    /// The file signature didn't match the expected signature.
    WrongSignature,
    /// The chunk CRC didn't match the expected calculated CRC.
    BadCRC,
    /// A truncated chunk was read.
    Truncated,
    /// Writing to the output sink failed.
    Io,
}

impl Error {
    /// The text that describes this error.
    pub open spec fn spec_message(self) -> Seq<char> {
        match self {
            Error::WrongSignature => "the file signature didn't match the expected signature"@,
            Error::BadCRC => "the chunk CRC didn't match the expected calculated CRC"@,
            Error::Truncated => "a truncated chunk was read"@,
            Error::Io => "writing to the output sink failed"@,
        }
    }

    /// Describe this error in words.
    pub fn message(&self) -> (s: String)
        ensures
            s@ == self.spec_message(),
    {
        match self {
            Error::WrongSignature => "the file signature didn't match the expected signature".to_string(),
            Error::BadCRC => "the chunk CRC didn't match the expected calculated CRC".to_string(),
            Error::Truncated => "a truncated chunk was read".to_string(),
            Error::Io => "writing to the output sink failed".to_string(),
        }
    }
}

} // verus!
