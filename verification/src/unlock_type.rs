//! How an encrypted device is unlocked.

use crate::text::str_eq;
use vstd::prelude::*;
use vstd::string::*;

verus! {

/// Where the secret of an encrypted device comes from.
#[derive(Debug, PartialEq, Eq)]
pub enum UnlockType {
    /// The user is asked for a passphrase.
    AskPassphrase,
    /// The key is read from the file at this path.
    Key(String),
}

/// What an `UnlockType` holds, as mathematical values.
pub enum UnlockView {
    AskPassphrase,
    Key(Seq<char>),
}

impl View for UnlockType {
    type V = UnlockView;

    open spec fn view(&self) -> UnlockView {
        match self {
            UnlockType::AskPassphrase => UnlockView::AskPassphrase,
            UnlockType::Key(path) => UnlockView::Key(path@),
        }
    }
}

/// What the last field of a crypttab line asks for: `none` asks for a passphrase, and
/// anything else is the path of a key file.
pub open spec fn parse_unlock(text: Seq<char>) -> UnlockView {
    if text == "none"@ {
        UnlockView::AskPassphrase
    } else {
        UnlockView::Key(text)
    }
}

impl UnlockType {
    /// What `unlock_type` asks for.
    pub fn from(unlock_type: &str) -> (r: UnlockType)
        ensures
            r@ == parse_unlock(unlock_type@),
    {
        if str_eq(unlock_type, "none") {
            UnlockType::AskPassphrase
        } else {
            UnlockType::Key(String::from_str(unlock_type))
        }
    }
}

} // verus!
