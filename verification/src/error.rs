use vstd::prelude::*;
use vstd::string::StringExecFns;

verus! {

/// Why an index operation did not succeed.
#[derive(Debug, Clone, Copy, PartialEq, Eq, Structural)]
pub enum IxError {
    /// Opening, reading, writing or seeking a file failed, or the compressor
    /// refused its input.
    Io,
    /// The index bytes do not follow the index format.
    CorruptIndex,
    /// A path has no file-name component to derive an index name from.
    MissingFileName,
    /// A query string holds no word at all.
    EmptyQuery,
}

impl IxError {
    /// The text shown to a user for this error.
    pub open spec fn message_text(self) -> Seq<char> {
        match self {
            IxError::Io => "I/O error"@,
            IxError::CorruptIndex => "Corrupt index"@,
            IxError::MissingFileName => "Missing file name"@,
            IxError::EmptyQuery => "Empty query"@,
        }
    }

    /// A human-readable description of the error.
    pub fn message(&self) -> (text: String)
        ensures
            text@ == self.message_text(),
    {
        match self {
            IxError::Io => String::from_str("I/O error"),
            IxError::CorruptIndex => String::from_str("Corrupt index"),
            IxError::MissingFileName => String::from_str("Missing file name"),
            IxError::EmptyQuery => String::from_str("Empty query"),
        }
    }
}

} // verus!
