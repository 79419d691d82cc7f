//! The failures that the engine reports.

use vstd::prelude::*;

verus! {

/// What went wrong with the line at which a transcoding stopped.
#[derive(Clone, Copy, Debug, PartialEq, Eq, Structural)]
pub enum LineError {
    /// The stream broke off where the line was to be read: its decoder
    /// failed before the end.
    Decode,
    /// The line is not valid UTF-8.
    NotUtf8,
    /// The encoder did not take the lines that were written.
    Encode,
}

/// Why an operation of the engine failed.
#[derive(Clone, Copy, Debug, PartialEq, Eq, Structural)]
pub enum FqcatError {
    /// No input file was found.
    Discovery,
    /// A file name lacks the suffix that selects its decoder.
    Naming,
    /// A line could not be read, decoded or written; with the error of the
    /// line at which it stopped.
    Transcode(LineError),
    /// A file that had to be opened or removed does not exist.
    Io,
}

} // verus!
