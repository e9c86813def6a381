//! The error kinds used by this crate.

use vstd::prelude::*;

verus! {

/// The errors which can occur when manipulating a `Grid`.
#[derive(Debug, Clone, Copy, PartialEq, Eq, Structural)]
pub enum GridErrorKind {
    OutOfBoundCoords,
}

impl GridErrorKind {
    /// A short description of the error, in words.
    pub fn description(&self) -> (r: &'static str)
        ensures
            r@ == match *self {
                GridErrorKind::OutOfBoundCoords => "out of bound index"@,
            },
    {
        match *self {
            GridErrorKind::OutOfBoundCoords => "out of bound index",
        }
    }
}

/// The errors which can occur when reading or writing a life file.
#[derive(Debug, Clone, Copy, PartialEq, Eq, Structural)]
pub enum FileParsingErrorKind {
    UnknownFormat,
    IoError,
    IncompleteFile,
    RuleParsingError,
    CoordParsingError,
    OutOfBoundCoords(GridErrorKind),
}

impl FileParsingErrorKind {
    /// A short description of the error, in words.
    pub fn description(&self) -> (r: &'static str)
        ensures
            r@ == match *self {
                FileParsingErrorKind::UnknownFormat => "unknown file format"@,
                FileParsingErrorKind::IoError => "IO error"@,
                FileParsingErrorKind::IncompleteFile => "incomplete or empty file"@,
                FileParsingErrorKind::RuleParsingError => "invalid ruleset"@,
                FileParsingErrorKind::CoordParsingError => "invalid coordinates"@,
                FileParsingErrorKind::OutOfBoundCoords(_) => "out of bound index"@,
            },
    {
        match *self {
            FileParsingErrorKind::UnknownFormat => "unknown file format",
            FileParsingErrorKind::IoError => "IO error",
            FileParsingErrorKind::IncompleteFile => "incomplete or empty file",
            FileParsingErrorKind::RuleParsingError => "invalid ruleset",
            FileParsingErrorKind::CoordParsingError => "invalid coordinates",
            FileParsingErrorKind::OutOfBoundCoords(_) => "out of bound index",
        }
    }
}

impl From<GridErrorKind> for FileParsingErrorKind {
    fn from(err: GridErrorKind) -> (r: FileParsingErrorKind) {
        FileParsingErrorKind::OutOfBoundCoords(err)
    }
}

impl vstd::std_specs::convert::FromSpecImpl<GridErrorKind> for FileParsingErrorKind {
    open spec fn obeys_from_spec() -> bool {
        true
    }

    open spec fn from_spec(err: GridErrorKind) -> FileParsingErrorKind {
        FileParsingErrorKind::OutOfBoundCoords(err)
    }
}

} // verus!
