//! The file system of the root device.

use crate::error::Error;
use crate::text::str_eq;
use vstd::prelude::*;
use vstd::string::*;

verus! {

/// The file system to mount the root device with.
#[derive(Debug, Clone, Copy, PartialEq, Eq, Structural)]
pub enum Filesystem {
    /// Whatever type the block device probe finds on the device.
    Auto,
    Ext4,
}

/// The file system that `text` names, if it names one.
pub open spec fn parse_filesystem(text: Seq<char>) -> Option<Filesystem> {
    if text == "ext4"@ {
        Some(Filesystem::Ext4)
    } else if text == "auto"@ {
        Some(Filesystem::Auto)
    } else {
        None
    }
}

impl Filesystem {
    /// The file system that `filesystem` names.
    pub fn try_from(filesystem: &str) -> (r: Result<Filesystem, Error>)
        ensures
            match r {
                Ok(fs) => parse_filesystem(filesystem@) == Some(fs),
                Err(e) => parse_filesystem(filesystem@) is None && e == Error::UnsupportedFilesystem,
            },
    {
        if str_eq(filesystem, "ext4") {
            Ok(Filesystem::Ext4)
        } else if str_eq(filesystem, "auto") {
            Ok(Filesystem::Auto)
        } else {
            Err(Error::UnsupportedFilesystem)
        }
    }

    /// The type to mount with: `ext4` where that was asked for; for `Auto` the type
    /// `probed` that the block device probe found on the device, and an error where it
    /// found none.
    pub fn get_filesystem_string(&self, probed: Option<&str>) -> (r: Result<String, Error>)
        ensures
            match r {
                Ok(name) => match *self {
                    Filesystem::Ext4 => name@ == "ext4"@,
                    Filesystem::Auto => probed matches Some(p) && name@ == p@,
                },
                Err(e) => *self == Filesystem::Auto && probed is None && e == Error::BlkidFailure,
            },
    {
        match self {
            Filesystem::Ext4 => Ok(String::from_str("ext4")),
            Filesystem::Auto => match probed {
                Some(name) => Ok(String::from_str(name)),
                None => Err(Error::BlkidFailure),
            },
        }
    }
}

} // verus!
