use vstd::prelude::*;

verus! {

/// Why discovering the executable regions of the process failed.
#[derive(Debug, Clone)]
pub enum Error {
    /// A system call failed unexpectedly.
    SysCallError { syscall: String, code: i32, message: String },
    /// The mapping table could not be read; `source` describes the I/O failure.
    ProcFsUnavailableError { source: String, path: String },
    /// The mapping table did not have the expected format.
    ProcFsFormatError { path: String },
}

impl Error {
    /// Whether this is a format error naming `path`.
    pub open spec fn is_format_error_at(self, path: Seq<char>) -> bool {
        match self {
            Error::ProcFsFormatError { path: p } => p@ == path,
            _ => false,
        }
    }
}

} // verus!
