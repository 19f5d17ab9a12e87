//! The kinds of encrypted devices that the boot agent unlocks.

use crate::error::Error;
use crate::text::str_eq;
use vstd::prelude::*;

verus! {

/// How a device is encrypted.
#[derive(Debug, Clone, Copy, PartialEq, Eq, Structural)]
pub enum EncryptionType {
    Luks,
}

impl EncryptionType {
    /// The encryption that `encryption` names: only `luks` names one.
    pub fn try_from(encryption: &str) -> (r: Result<EncryptionType, Error>)
        ensures
            r == if encryption@ == "luks"@ {
                Ok::<EncryptionType, Error>(EncryptionType::Luks)
            } else {
                Err(Error::UnsupportedEncryption)
            },
    {
        if str_eq(encryption, "luks") {
            Ok(EncryptionType::Luks)
        } else {
            Err(Error::UnsupportedEncryption)
        }
    }
}

} // verus!
