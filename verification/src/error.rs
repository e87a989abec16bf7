//! The errors that the library's rules report.

use vstd::prelude::*;

verus! {

/// Why an operation was refused.
#[derive(PartialEq, Eq, Structural, Clone, Copy, Debug)]
pub enum CcsError {
    /// A configuration of that name is already registered.
    NameTaken,
    /// No configuration of that name is registered.
    NotFound,
    /// The configuration name is empty once trimmed.
    EmptyName,
    /// The configuration name holds a path separator or a character that
    /// file names cannot hold.
    ForbiddenChar,
    /// The configuration name is `.` or `..`.
    ReservedName,
    /// The configuration name ends with a space or a dot.
    BadEnding,
    /// The configuration name is longer than 64 characters.
    NameTooLong,
    /// The configuration file to register does not exist.
    FileMissing,
    /// A project pin names a configuration that is not registered.
    PinTargetMissing,
    /// No name was given, no pin was found and no default is set.
    NoConfigAvailable,
    /// A run was asked for without a configuration name.
    MissingConfigName,
    /// A report was asked for in a format other than `table` and `json`.
    UnsupportedFormat,
}

} // verus!
