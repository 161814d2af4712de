use vstd::prelude::*;

verus! {

/// The failures an installation run can end with.  Every one of them is fatal
/// to the run; the staging directory is still cleaned up afterwards.
#[derive(Clone, Copy, Debug, PartialEq, Eq, Structural)]
pub enum InstallError {
    /// The archive holds no manifest entry at its well-known location.
    ManifestMissing,
    /// A configuration file does not exist.
    ConfigNotFound,
    /// A configuration file could be parsed in neither supported encoding.
    ConfigParseError,
    /// The source of a merge-copy is not a directory.
    SourceNotDirectory,
    /// The destination of a merge-copy is an existing regular file.
    DestinationIsFile,
    /// A file or directory could not be created, copied or removed.
    IoFailure,
    /// The host process could not be stopped.
    HostBusy,
}

} // verus!
