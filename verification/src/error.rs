//! The errors of the boot agent's parsers and decisions.

use vstd::prelude::*;

verus! {

/// Why the boot agent cannot go on with an input.
#[derive(Debug, Clone, Copy, PartialEq, Eq, Structural)]
pub enum Error {
    /// The kernel command line names no root device.
    MissingRoot,
    /// The file system asked for is none that the boot agent mounts.
    UnsupportedFilesystem,
    /// The encryption asked for is none that the boot agent unlocks.
    UnsupportedEncryption,
    /// A line of the crypttab holds fewer than four fields.
    CrypttabParse,
    /// The kernel's message about a device is malformed.
    UeventParse,
    /// The block device probe has no answer about a device.
    BlkidFailure,
    /// A file that should be a kernel module has no module name.
    ModuleName,
    /// A file that should be a program is no ELF file.
    NotElf,
    /// An ELF file does not hold what its headers promise.
    MalformedElf,
}

} // verus!
