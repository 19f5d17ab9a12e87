//! How a block device is named: by its path or by the UUID of what it holds.

use crate::error::Error;
use crate::text::strip_prefix;
use vstd::prelude::*;
use vstd::string::*;

verus! {

/// The name of a block device.
#[derive(Debug, PartialEq, Eq)]
pub enum Identifier {
    /// The path of the device node.
    Path(String),
    /// The UUID of the file system or container on the device.
    Uuid(String),
}

/// What an `Identifier` holds, as mathematical values.
pub enum IdentifierView {
    Path(Seq<char>),
    Uuid(Seq<char>),
}

impl View for Identifier {
    type V = IdentifierView;

    open spec fn view(&self) -> IdentifierView {
        match self {
            Identifier::Path(path) => IdentifierView::Path(path@),
            Identifier::Uuid(uuid) => IdentifierView::Uuid(uuid@),
        }
    }
}

/// The identifier that `text` stands for: a UUID where it starts with `UUID=`, else a
/// path.
pub open spec fn parse_identifier(text: Seq<char>) -> IdentifierView {
    if "UUID="@.is_prefix_of(text) {
        IdentifierView::Uuid(text.skip("UUID="@.len() as int))
    } else {
        IdentifierView::Path(text)
    }
}

/// `UUID=` followed by `s` is the UUID `s`, and a text that does not start with `UUID=`
/// is the path of that text.
pub proof fn lemma_parse_identifier(s: Seq<char>)
    ensures
        parse_identifier("UUID="@ + s) == IdentifierView::Uuid(s),
        !"UUID="@.is_prefix_of(s) ==> parse_identifier(s) == IdentifierView::Path(s),
{
    assert(("UUID="@ + s).skip("UUID="@.len() as int) == s);
}

/// The text of `s` as Rust's `Debug` formatting writes it: in double quotes, with
/// escapes.
pub uninterp spec fn debug_quoted(s: Seq<char>) -> Seq<char>;

/// `Debug` formatting of a `str`, through `format!`.
#[verifier::external_body]
fn debug_quote(s: &str) -> (r: String)
    ensures
        r@ == debug_quoted(s@),
{
    format!("{:?}", s)
}

impl Identifier {
    /// The identifier that `identifier` stands for.
    pub fn from(identifier: &str) -> (r: Identifier)
        ensures
            r@ == parse_identifier(identifier@),
    {
        match strip_prefix(identifier, "UUID=") {
            Some(uuid) => Identifier::Uuid(uuid),
            None => Identifier::Path(String::from_str(identifier)),
        }
    }

    /// The identifier as it is shown to the user: a UUID as it is, a path in quotes.
    pub fn to_text(&self) -> (r: String)
        ensures
            r@ == match self@ {
                IdentifierView::Path(path) => debug_quoted(path),
                IdentifierView::Uuid(uuid) => uuid,
            },
    {
        match self {
            Identifier::Path(path) => debug_quote(path.as_str()),
            Identifier::Uuid(uuid) => uuid.clone(),
        }
    }

    /// The path of the device that the identifier names. A path names itself; for a
    /// UUID, `uuid_device` is the device that the block device probe found for it, if it
    /// found one.
    pub fn get_path(&self, uuid_device: Option<&str>) -> (r: Result<String, Error>)
        ensures
            match r {
                Ok(path) => match self@ {
                    IdentifierView::Path(p) => path@ == p,
                    IdentifierView::Uuid(_) => uuid_device matches Some(d) && path@ == d@,
                },
                Err(e) => self@ is Uuid && uuid_device is None && e == Error::BlkidFailure,
            },
    {
        match self {
            Identifier::Path(path) => Ok(path.clone()),
            Identifier::Uuid(_) => match uuid_device {
                Some(device) => Ok(String::from_str(device)),
                None => Err(Error::BlkidFailure),
            },
        }
    }
}

} // verus!
