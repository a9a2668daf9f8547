//! The error taxonomy of the database loader.

use vstd::prelude::*;

verus! {

/// Why a database could not be loaded.
///
/// Every failure of the loading pipeline is reported as exactly one of these
/// variants; no failure is ever turned into a silent default.
#[derive(Debug, Clone, Copy, PartialEq, Eq, Structural)]
pub enum ProgramError {
    /// The requested path does not exist.
    NotFound,
    /// An underlying read failed.
    IoError,
    /// Neither decompression attempt could decode the input.
    DecodeError,
    /// The archive container framing is invalid.
    ArchiveError,
    /// A `desc` entry violates the descriptor format.
    ParseError,
}

impl ProgramError {
    /// A short human-readable description of the error.
    pub fn describe(&self) -> (r: &'static str)
        ensures
            match self {
                ProgramError::NotFound => r@ == "file not found"@,
                ProgramError::IoError => r@ == "an io error occurred"@,
                ProgramError::DecodeError => r@ == "the database could not be decompressed"@,
                ProgramError::ArchiveError => r@ == "the database archive is corrupt"@,
                ProgramError::ParseError => r@ == "a package descriptor is malformed"@,
            },
    {
        match self {
            ProgramError::NotFound => "file not found",
            ProgramError::IoError => "an io error occurred",
            ProgramError::DecodeError => "the database could not be decompressed",
            ProgramError::ArchiveError => "the database archive is corrupt",
            ProgramError::ParseError => "a package descriptor is malformed",
        }
    }
}

} // verus!
