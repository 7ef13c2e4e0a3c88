//! Failures to open or read a source file.
use vstd::prelude::*;
use vstd::string::StringExecFns;

use crate::writer::{Diagnostic, ErrorProvider, ErrorWriter};

verus! {

/// A source file that could not be opened or read: its path, and what the
/// system said of the failure.
#[derive(Debug)]
pub enum FileError {
    FileOpen { file: String, source: String },
    FileRead { file: String, source: String },
}

impl FileError {
    #[must_use]
    pub fn file_open(path: String, source: String) -> (r: FileError)
        ensures
            r == (FileError::FileOpen { file: path, source }),
    {
        FileError::FileOpen { file: path, source }
    }

    #[must_use]
    pub fn file_read(path: String, source: String) -> (r: FileError)
        ensures
            r == (FileError::FileRead { file: path, source }),
    {
        FileError::FileRead { file: path, source }
    }
}

/// The message for a file that could not be opened (`open`) or read.
pub open spec fn file_message(open: bool, file: Seq<char>, source: Seq<char>) -> Seq<char> {
    (if open {
        "Unable to open file `"@
    } else {
        "Unable to read file `"@
    }) + file + "`: "@ + source
}

impl ErrorProvider for FileError {
    /// One error, pointing at no range.
    open spec fn diagnostics(&self) -> Seq<Diagnostic> {
        match self {
            FileError::FileOpen { file, source } => seq![(false, None, file_message(true, file@, source@))],
            FileError::FileRead { file, source } => seq![(false, None, file_message(false, file@, source@))],
        }
    }

    fn write_errors<W: ErrorWriter>(&self, writer: &mut W) {
        let (open, file, source) = match self {
            FileError::FileOpen { file, source } => (true, file, source),
            FileError::FileRead { file, source } => (false, file, source),
        };
        let mut message = if open {
            String::from_str("Unable to open file `")
        } else {
            String::from_str("Unable to read file `")
        };
        message.append(file.as_str());
        message.append("`: ");
        message.append(source.as_str());
        writer.error(None, message.as_str());
        assert(writer.written() =~= old(writer).written() + self.diagnostics());
    }
}

} // verus!
