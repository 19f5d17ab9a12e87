//! The root device, as the kernel command line names it.

use crate::error::Error;
use crate::filesystem::{parse_filesystem, Filesystem};
use crate::identifier::{parse_identifier, Identifier, IdentifierView};
use crate::text::{strip_prefix, views};
use vstd::prelude::*;
use vstd::string::*;

verus! {

/// The device to mount as the root file system.
#[derive(Debug, PartialEq, Eq)]
pub struct RootDevice {
    pub filesystem: Filesystem,
    pub identifier: Identifier,
    /// The path of the device, once it has appeared.
    pub devpath: Option<String>,
}

/// What a `RootDevice` holds, as mathematical values.
pub struct RootDeviceView {
    pub filesystem: Filesystem,
    pub identifier: IdentifierView,
    pub devpath: Option<Seq<char>>,
}

impl View for RootDevice {
    type V = RootDeviceView;

    open spec fn view(&self) -> RootDeviceView {
        RootDeviceView {
            filesystem: self.filesystem,
            identifier: self.identifier@,
            devpath: match self.devpath {
                Some(path) => Some(path@),
                None => None,
            },
        }
    }
}

/// What follows `key` in the last of `args` that starts with `key`, if one does.
pub open spec fn last_value(args: Seq<Seq<char>>, key: Seq<char>) -> Option<Seq<char>>
    decreases args.len(),
{
    if args.len() == 0 {
        None
    } else if key.is_prefix_of(args.last()) {
        Some(args.last().skip(key.len() as int))
    } else {
        last_value(args.drop_last(), key)
    }
}

/// The root device that the arguments of a kernel command line name: the identifier
/// is what the last `root=` gives, the file system what the last `root.type=` gives and
/// `auto` without one. No `root=` is an error, and so is an unknown file system.
pub open spec fn root_of_cmdline(cmdline: Seq<Seq<char>>) -> Result<RootDeviceView, Error> {
    match last_value(cmdline, "root="@) {
        None => Err(Error::MissingRoot),
        Some(root) => {
            let kind = match last_value(cmdline, "root.type="@) {
                Some(kind) => kind,
                None => "auto"@,
            };
            match parse_filesystem(kind) {
                None => Err(Error::UnsupportedFilesystem),
                Some(filesystem) => Ok(
                    RootDeviceView { filesystem, identifier: parse_identifier(root), devpath: None },
                ),
            }
        },
    }
}

/// What follows `key` in the last of `args` that starts with `key`.
fn find_last_value(args: &[String], key: &str) -> (r: Option<String>)
    ensures
        match r {
            Some(value) => last_value(views(args@), key@) == Some(value@),
            None => last_value(views(args@), key@) is None,
        },
{
    let mut i: usize = args.len();
    assert(views(args@).take(i as int) == views(args@));
    while i > 0
        invariant
            i <= args@.len(),
            last_value(views(args@), key@) == last_value(views(args@).take(i as int), key@),
        decreases i,
    {
        let ghost prefix = views(args@).take(i as int);
        assert(prefix.last() == args@[i - 1]@);
        assert(prefix.drop_last() == views(args@).take(i - 1));
        match strip_prefix(args[i - 1].as_str(), key) {
            Some(value) => {
                return Some(value);
            },
            None => {},
        }
        i = i - 1;
    }
    None
}

/// The root device that the arguments `cmdline` of the kernel command line name.
pub fn get_root_from_cmdline(cmdline: &[String]) -> (r: Result<RootDevice, Error>)
    ensures
        match r {
            Ok(root) => root_of_cmdline(views(cmdline@)) == Ok::<RootDeviceView, Error>(root@),
            Err(e) => root_of_cmdline(views(cmdline@)) == Err::<RootDeviceView, Error>(e),
        },
{
    let root = match find_last_value(cmdline, "root=") {
        Some(root) => root,
        None => {
            return Err(Error::MissingRoot);
        },
    };
    let kind = match find_last_value(cmdline, "root.type=") {
        Some(kind) => kind,
        None => String::from_str("auto"),
    };
    let filesystem = match Filesystem::try_from(kind.as_str()) {
        Ok(filesystem) => filesystem,
        Err(e) => {
            return Err(e);
        },
    };
    Ok(RootDevice { filesystem, identifier: Identifier::from(root.as_str()), devpath: None })
}

} // verus!
