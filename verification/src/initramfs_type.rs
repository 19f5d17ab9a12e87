//! The two profiles of an image.

use vstd::prelude::*;

verus! {

/// For which machines an image is built.
#[derive(Debug, Clone, Copy, PartialEq, Eq, Structural)]
pub enum InitramfsType {
    /// For this machine only: of the modules that a general image takes, those that
    /// are loaded now.
    Host,
    /// For any machine.
    General,
}

} // verus!
