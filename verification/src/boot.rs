//! What the boot agent does once, around the handling of devices: reading the kernel
//! command line, and handing the machine over to the system on the root device.

use crate::error::Error;
use crate::filesystem::Filesystem;
use crate::root_device::RootDevice;
use crate::text::{split_whitespace, views, words};
use vstd::prelude::*;
use vstd::string::*;

verus! {

/// The arguments of the kernel command line `cmdline`: its words.
pub fn parse_cmdline(cmdline: &str) -> (r: Vec<String>)
    ensures
        views(r@) == words(cmdline@),
{
    split_whitespace(cmdline)
}

/// The modules that are loaded before any device is looked at, so that the block
/// devices of common virtual machines appear.
pub fn essential_modules() -> (r: Vec<String>)
    ensures
        views(r@) == seq!["virtio_blk"@, "virtio_pci"@],
{
    let mut out: Vec<String> = Vec::new();
    out.push(String::from_str("virtio_blk"));
    out.push(String::from_str("virtio_pci"));
    assert(views(out@) == seq!["virtio_blk"@, "virtio_pci"@]);
    out
}

/// A file system that the kernel provides, and the directory below `/` where it is
/// mounted.
#[derive(Debug, PartialEq, Eq)]
pub struct SpecialMount {
    /// The directory, without the leading `/`.
    pub name: String,
    /// The type of the file system.
    pub filesystem: String,
}

/// What a `SpecialMount` holds, as mathematical values.
pub struct SpecialMountView {
    pub name: Seq<char>,
    pub filesystem: Seq<char>,
}

impl View for SpecialMount {
    type V = SpecialMountView;

    open spec fn view(&self) -> SpecialMountView {
        SpecialMountView { name: self.name@, filesystem: self.filesystem@ }
    }
}

/// The special file systems, in the order in which they are mounted.
pub open spec fn special_mounts() -> Seq<SpecialMountView> {
    seq![
        SpecialMountView { name: "dev"@, filesystem: "devtmpfs"@ },
        SpecialMountView { name: "sys"@, filesystem: "sysfs"@ },
        SpecialMountView { name: "proc"@, filesystem: "proc"@ },
    ]
}

/// The special file systems to mount below `/` before anything else.
pub fn default_mounts() -> (r: Vec<SpecialMount>)
    ensures
        r@.map_values(|m: SpecialMount| m@) == special_mounts(),
{
    let mut out: Vec<SpecialMount> = Vec::new();
    out.push(
        SpecialMount { name: String::from_str("dev"), filesystem: String::from_str("devtmpfs") },
    );
    out.push(SpecialMount { name: String::from_str("sys"), filesystem: String::from_str("sysfs") });
    out.push(SpecialMount { name: String::from_str("proc"), filesystem: String::from_str("proc") });
    assert(out@.map_values(|m: SpecialMount| m@) == special_mounts());
    out
}

/// A step of the hand-over to the system on the root device.
#[derive(Debug, PartialEq, Eq)]
pub enum BootStep {
    /// The module is loaded if the index knows it.
    LoadModule(String),
    /// The device `source` is mounted as a file system of the type `filesystem` at the
    /// directory `target`.
    Mount { filesystem: String, source: String, target: String },
    /// The special file system mounted at `/<name>` is moved to `<root>/<name>`.
    MoveMount { name: String, root: String },
    /// The working directory becomes this directory.
    ChangeDirectory(String),
    /// The file system mounted at the directory is moved onto `/`.
    MoveToRoot(String),
    /// The root directory of the process becomes its working directory.
    ChangeRoot,
    /// The process becomes this program.
    Execute(String),
}

/// What a `BootStep` holds, as mathematical values.
pub enum BootStepView {
    LoadModule(Seq<char>),
    Mount { filesystem: Seq<char>, source: Seq<char>, target: Seq<char> },
    MoveMount { name: Seq<char>, root: Seq<char> },
    ChangeDirectory(Seq<char>),
    MoveToRoot(Seq<char>),
    ChangeRoot,
    Execute(Seq<char>),
}

impl View for BootStep {
    type V = BootStepView;

    open spec fn view(&self) -> BootStepView {
        match self {
            BootStep::LoadModule(name) => BootStepView::LoadModule(name@),
            BootStep::Mount { filesystem, source, target } => BootStepView::Mount {
                filesystem: filesystem@,
                source: source@,
                target: target@,
            },
            BootStep::MoveMount { name, root } => BootStepView::MoveMount {
                name: name@,
                root: root@,
            },
            BootStep::ChangeDirectory(dir) => BootStepView::ChangeDirectory(dir@),
            BootStep::MoveToRoot(dir) => BootStepView::MoveToRoot(dir@),
            BootStep::ChangeRoot => BootStepView::ChangeRoot,
            BootStep::Execute(program) => BootStepView::Execute(program@),
        }
    }
}

/// The type with which the root device is mounted: `ext4` where that was asked for, and
/// for `Auto` the type `probed` that the block device probe found.
pub open spec fn root_filesystem(filesystem: Filesystem, probed: Option<Seq<char>>) -> Option<
    Seq<char>,
> {
    match filesystem {
        Filesystem::Ext4 => Some("ext4"@),
        Filesystem::Auto => probed,
    }
}

/// The steps that hand the machine over to the system on the device `source`, mounted
/// as `filesystem`: the modules for the file system are loaded, the device is mounted
/// at `/new_root`, the special file systems are moved below it, the new root is moved
/// onto `/`, and the process becomes the system's `init`.
pub open spec fn hand_over(filesystem: Seq<char>, source: Seq<char>) -> Seq<BootStepView> {
    seq![
        BootStepView::LoadModule("crc32c_generic"@),
        BootStepView::LoadModule(filesystem),
        BootStepView::Mount { filesystem, source, target: "/new_root"@ },
        BootStepView::MoveMount { name: "dev"@, root: "/new_root"@ },
        BootStepView::MoveMount { name: "sys"@, root: "/new_root"@ },
        BootStepView::MoveMount { name: "proc"@, root: "/new_root"@ },
        BootStepView::ChangeDirectory("/new_root"@),
        BootStepView::MoveToRoot("."@),
        BootStepView::ChangeRoot,
        BootStepView::ChangeDirectory("/"@),
        BootStepView::Execute("/sbin/init"@),
    ]
}

/// The steps that hand the machine over to the system on the root device `root`.
/// `probed` is the type that the block device probe found on the device. A root device
/// whose path is not known yet, or whose type is to be probed and was not found, is an
/// error.
pub fn switch_root(root: &RootDevice, probed: Option<&str>) -> (r: Result<Vec<BootStep>, Error>)
    ensures
        match r {
            Ok(steps) => root@.devpath matches Some(source) && root_filesystem(
                root@.filesystem,
                match probed {
                    Some(p) => Some(p@),
                    None => None,
                },
            ) matches Some(filesystem) && steps@.map_values(|s: BootStep| s@) == hand_over(
                filesystem,
                source,
            ),
            Err(e) => if root@.devpath is None {
                e == Error::MissingRoot
            } else {
                root@.filesystem == Filesystem::Auto && probed is None && e == Error::BlkidFailure
            },
        },
{
    let source = match &root.devpath {
        Some(source) => source,
        None => {
            return Err(Error::MissingRoot);
        },
    };
    let filesystem = match root.filesystem.get_filesystem_string(probed) {
        Ok(filesystem) => filesystem,
        Err(e) => {
            return Err(e);
        },
    };
    let mut steps: Vec<BootStep> = Vec::new();
    steps.push(BootStep::LoadModule(String::from_str("crc32c_generic")));
    steps.push(BootStep::LoadModule(filesystem.clone()));
    steps.push(
        BootStep::Mount {
            filesystem: filesystem.clone(),
            source: source.clone(),
            target: String::from_str("/new_root"),
        },
    );
    steps.push(
        BootStep::MoveMount { name: String::from_str("dev"), root: String::from_str("/new_root") },
    );
    steps.push(
        BootStep::MoveMount { name: String::from_str("sys"), root: String::from_str("/new_root") },
    );
    steps.push(
        BootStep::MoveMount { name: String::from_str("proc"), root: String::from_str("/new_root") },
    );
    steps.push(BootStep::ChangeDirectory(String::from_str("/new_root")));
    steps.push(BootStep::MoveToRoot(String::from_str(".")));
    steps.push(BootStep::ChangeRoot);
    steps.push(BootStep::ChangeDirectory(String::from_str("/")));
    steps.push(BootStep::Execute(String::from_str("/sbin/init")));
    assert(steps@.map_values(|s: BootStep| s@) == hand_over(filesystem@, source@));
    Ok(steps)
}

/// The program that takes over where the boot agent fails, with its arguments: a
/// shell for the rescue of the machine.
pub fn rescue_shell() -> (r: Vec<String>)
    ensures
        views(r@) == seq!["/bin/busybox"@, "sh"@],
{
    let mut out: Vec<String> = Vec::new();
    out.push(String::from_str("/bin/busybox"));
    out.push(String::from_str("sh"));
    assert(views(out@) == seq!["/bin/busybox"@, "sh"@]);
    out
}

/// The programs that activate logical volumes, each with its arguments, in the order
/// in which they are run.
pub fn lvm_activation() -> (r: Vec<Vec<String>>)
    ensures
        r@.len() == 2,
        views(r@[0]@) == seq!["/bin/vgchange"@, "-ay"@],
        views(r@[1]@) == seq!["/bin/vgmknodes"@],
{
    let mut change: Vec<String> = Vec::new();
    change.push(String::from_str("/bin/vgchange"));
    change.push(String::from_str("-ay"));
    assert(views(change@) == seq!["/bin/vgchange"@, "-ay"@]);
    let mut nodes: Vec<String> = Vec::new();
    nodes.push(String::from_str("/bin/vgmknodes"));
    assert(views(nodes@) == seq!["/bin/vgmknodes"@]);
    let mut out: Vec<Vec<String>> = Vec::new();
    out.push(change);
    out.push(nodes);
    out
}

} // verus!
