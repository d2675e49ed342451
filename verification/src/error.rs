//! Failure classes carried through measurements and diagnostics.

use vstd::prelude::*;

verus! {

/// One failure, tagged by where it arose. Each arm carries the rendered
/// cause, ready for the diagnostic stream or the error column.
pub enum CliError {
    /// An input/output failure; name resolution that yields no address
    /// falls here.
    IoError(String),
    /// A number that could not be read from the command line.
    ParseIntError(String),
    /// An echo-level failure, timeout included.
    WinpingError(String),
}

impl CliError {
    /// The diagnostic text of the failure.
    pub open spec fn message_spec(&self) -> Seq<char> {
        match self {
            CliError::IoError(s) => s@,
            CliError::ParseIntError(s) => s@,
            CliError::WinpingError(s) => s@,
        }
    }

    /// Render the failure.
    pub fn message(&self) -> (r: String)
        ensures
            r@ == self.message_spec(),
    {
        match self {
            CliError::IoError(s) => s.clone(),
            CliError::ParseIntError(s) => s.clone(),
            CliError::WinpingError(s) => s.clone(),
        }
    }
}

} // verus!
