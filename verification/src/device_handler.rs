//! What the boot agent does about each block device that appears: unlock it, take it
//! for the root device, or activate the logical volumes on it.

use crate::encrypted_device::{
    crypttab_devices, device_views, parse_crypttab, EncryptedDevice, EncryptedDeviceView,
};
use crate::encryption_type::EncryptionType;
use crate::error::Error;
use crate::identifier::{debug_quoted, Identifier, IdentifierView};
use crate::root_device::{get_root_from_cmdline, root_of_cmdline, RootDevice, RootDeviceView};
use crate::text::{str_eq, views};
use crate::unlock_type::{UnlockType, UnlockView};
use vstd::prelude::*;
use vstd::string::*;

verus! {

/// What the block device probe knows of a device.
#[derive(Debug, PartialEq, Eq)]
pub struct BlockDevice {
    /// The path of the device node.
    pub devname: String,
    /// The value of the device's `UUID` tag.
    pub uuid: Option<String>,
    /// The value of the device's `TYPE` tag.
    pub fstype: Option<String>,
}

/// What a `BlockDevice` holds, as mathematical values.
pub struct BlockDeviceView {
    pub devname: Seq<char>,
    pub uuid: Option<Seq<char>>,
    pub fstype: Option<Seq<char>>,
}

impl View for BlockDevice {
    type V = BlockDeviceView;

    open spec fn view(&self) -> BlockDeviceView {
        BlockDeviceView {
            devname: self.devname@,
            uuid: match self.uuid {
                Some(uuid) => Some(uuid@),
                None => None,
            },
            fstype: match self.fstype {
                Some(fstype) => Some(fstype@),
                None => None,
            },
        }
    }
}

/// The views of `devices`, in order.
pub open spec fn block_views(devices: Seq<BlockDevice>) -> Seq<BlockDeviceView> {
    devices.map_values(|d: BlockDevice| d@)
}

/// Where the secret for an encrypted device comes from.
#[derive(Debug, PartialEq, Eq)]
pub enum Secret {
    /// The key is the content of the file at this path.
    Keyfile(String),
    /// The user is asked for a passphrase, with this prompt.
    Passphrase(String),
}

/// What a `Secret` holds, as mathematical values.
pub enum SecretView {
    Keyfile(Seq<char>),
    Passphrase(Seq<char>),
}

impl View for Secret {
    type V = SecretView;

    open spec fn view(&self) -> SecretView {
        match self {
            Secret::Keyfile(path) => SecretView::Keyfile(path@),
            Secret::Passphrase(prompt) => SecretView::Passphrase(prompt@),
        }
    }
}

/// An encrypted device to unlock.
#[derive(Debug, PartialEq, Eq)]
pub struct UnlockRequest {
    /// The path of the device that holds the encrypted data.
    pub device: String,
    /// The name under which the unlocked device is to be mapped.
    pub name: String,
    pub secret: Secret,
}

/// What an `UnlockRequest` holds, as mathematical values.
pub struct UnlockRequestView {
    pub device: Seq<char>,
    pub name: Seq<char>,
    pub secret: SecretView,
}

impl View for UnlockRequest {
    type V = UnlockRequestView;

    open spec fn view(&self) -> UnlockRequestView {
        UnlockRequestView { device: self.device@, name: self.name@, secret: self.secret@ }
    }
}

/// The views of `requests`, in order.
pub open spec fn request_views(requests: Seq<UnlockRequest>) -> Seq<UnlockRequestView> {
    requests.map_values(|r: UnlockRequest| r@)
}

/// What is to be done about a device.
#[derive(Debug, PartialEq, Eq)]
pub enum DeviceAction {
    /// Nothing.
    Nothing,
    /// The device is listed in the crypttab and is to be unlocked.
    Unlock(UnlockRequest),
    /// The device is the root device.
    RootFound,
    /// The device holds logical volumes: the volume groups are to be activated.
    ActivateLvm,
}

/// What a `DeviceAction` holds, as mathematical values.
pub enum DeviceActionView {
    Nothing,
    Unlock(UnlockRequestView),
    RootFound,
    ActivateLvm,
}

impl View for DeviceAction {
    type V = DeviceActionView;

    open spec fn view(&self) -> DeviceActionView {
        match self {
            DeviceAction::Nothing => DeviceActionView::Nothing,
            DeviceAction::Unlock(request) => DeviceActionView::Unlock(request@),
            DeviceAction::RootFound => DeviceActionView::RootFound,
            DeviceAction::ActivateLvm => DeviceActionView::ActivateLvm,
        }
    }
}

/// The views of `actions`, in order.
pub open spec fn action_views(actions: Seq<DeviceAction>) -> Seq<DeviceActionView> {
    actions.map_values(|a: DeviceAction| a@)
}

/// What a `DeviceHandler` holds, as mathematical values.
pub struct HandlerView {
    pub root: RootDeviceView,
    pub encrypted_devices: Seq<EncryptedDeviceView>,
}

/// The index of the first of `devices` whose identifier is `id`.
pub open spec fn first_with(devices: Seq<EncryptedDeviceView>, id: IdentifierView) -> Option<int>
    decreases devices.len(),
{
    if devices.len() == 0 {
        None
    } else {
        match first_with(devices.drop_last(), id) {
            Some(i) => Some(i),
            None => if devices.last().identifier == id {
                Some(devices.len() - 1)
            } else {
                None
            },
        }
    }
}

/// The index of the crypttab entry for the device at `path` with the UUID `uuid`: the
/// first entry that names the path, and without one the first that names the UUID. A
/// device without a UUID counts as one with the empty UUID.
pub open spec fn encrypted_match(devices: Seq<EncryptedDeviceView>, device: BlockDeviceView) -> Option<
    int,
> {
    match first_with(devices, IdentifierView::Path(device.devname)) {
        Some(i) => Some(i),
        None => first_with(
            devices,
            IdentifierView::Uuid(
                match device.uuid {
                    Some(uuid) => uuid,
                    None => Seq::empty(),
                },
            ),
        ),
    }
}

/// Whether `id` names `device`: by its path, or by the UUID that the device has.
pub open spec fn names(id: IdentifierView, device: BlockDeviceView) -> bool {
    match id {
        IdentifierView::Path(path) => path == device.devname,
        IdentifierView::Uuid(uuid) => device.uuid == Some(uuid),
    }
}

/// The request to unlock the device at `path` as the crypttab entry `entry` says: with
/// the key file that the entry names, or with a passphrase asked for with a prompt that
/// shows the entry's identifier.
pub open spec fn unlock_request(path: Seq<char>, entry: EncryptedDeviceView) -> UnlockRequestView {
    UnlockRequestView {
        device: path,
        name: entry.name,
        secret: match entry.unlock {
            UnlockView::Key(key) => SecretView::Keyfile(key),
            UnlockView::AskPassphrase => SecretView::Passphrase(
                "Password for device "@ + (match entry.identifier {
                    IdentifierView::Path(p) => debug_quoted(p),
                    IdentifierView::Uuid(u) => u,
                }) + ": "@,
            ),
        },
    }
}

/// The root device `root` once the device at `path` has turned out to be it: the path
/// becomes the root device's, unless the root device has a path already, which stays.
pub open spec fn found_at(root: RootDeviceView, path: Seq<char>) -> RootDeviceView {
    match root.devpath {
        Some(_) => root,
        None => RootDeviceView { devpath: Some(path), ..root },
    }
}

/// What handling `device` does: the handler afterwards, and what is to be done. A
/// device of the crypttab is to be unlocked. Else the root device has its path set.
/// Else a device of the type `lvm` has its volume groups activated.
pub open spec fn handled(st: HandlerView, device: BlockDeviceView) -> (HandlerView, DeviceActionView) {
    match encrypted_match(st.encrypted_devices, device) {
        Some(i) => (
            st,
            DeviceActionView::Unlock(unlock_request(device.devname, st.encrypted_devices[i])),
        ),
        None => if names(st.root.identifier, device) {
            (
                HandlerView { root: found_at(st.root, device.devname), ..st },
                DeviceActionView::RootFound,
            )
        } else if device.fstype == Some("lvm"@) {
            (st, DeviceActionView::ActivateLvm)
        } else {
            (st, DeviceActionView::Nothing)
        },
    }
}

/// The path of the root device is set once: handling a device changes nothing of a
/// handler but the path of the root device, and a path that is set stays.
pub proof fn lemma_root_is_found_once(st: HandlerView, device: BlockDeviceView)
    ensures
        handled(st, device).0.encrypted_devices == st.encrypted_devices,
        handled(st, device).0.root.identifier == st.root.identifier,
        handled(st, device).0.root.filesystem == st.root.filesystem,
        st.root.devpath is Some ==> handled(st, device).0 == st,
        handled(st, device).1 is RootFound ==> handled(st, device).0.root.devpath is Some,
{
}

/// What handling `devices` one after the other does, up to and with the device that
/// turns out to be the root device: nothing is handled once the root device is known.
pub open spec fn listened(st: HandlerView, devices: Seq<BlockDeviceView>) -> (
    HandlerView,
    Seq<DeviceActionView>,
)
    decreases devices.len(),
{
    if devices.len() == 0 {
        (st, Seq::empty())
    } else {
        let (before, actions) = listened(st, devices.drop_last());
        if before.root.devpath is Some {
            (before, actions)
        } else {
            let (after, action) = handled(before, devices.last());
            (after, actions.push(action))
        }
    }
}

/// The index of the first of `devices` that the root identifier `id` names.
pub open spec fn first_named(id: IdentifierView, devices: Seq<BlockDeviceView>) -> Option<int>
    decreases devices.len(),
{
    if devices.len() == 0 {
        None
    } else {
        match first_named(id, devices.drop_last()) {
            Some(i) => Some(i),
            None => if names(id, devices.last()) {
                Some(devices.len() - 1)
            } else {
                None
            },
        }
    }
}

/// The requests to unlock `device` for each of `entries` that names it, in the order of
/// the entries.
pub open spec fn unlocks_for(entries: Seq<EncryptedDeviceView>, device: BlockDeviceView) -> Seq<
    UnlockRequestView,
>
    decreases entries.len(),
{
    if entries.len() == 0 {
        Seq::empty()
    } else {
        let before = unlocks_for(entries.drop_last(), device);
        if names(entries.last().identifier, device) {
            before.push(unlock_request(device.devname, entries.last()))
        } else {
            before
        }
    }
}

/// The requests to unlock each of `devices` that an entry names, device by device.
pub open spec fn available_unlocks(
    entries: Seq<EncryptedDeviceView>,
    devices: Seq<BlockDeviceView>,
) -> Seq<UnlockRequestView>
    decreases devices.len(),
{
    if devices.len() == 0 {
        Seq::empty()
    } else {
        available_unlocks(entries, devices.drop_last()) + unlocks_for(entries, devices.last())
    }
}

/// A match among the first `n` entries is the match among all.
proof fn lemma_first_with_extends(devices: Seq<EncryptedDeviceView>, id: IdentifierView, n: int)
    requires
        0 <= n <= devices.len(),
        first_with(devices.take(n), id) is Some,
    ensures
        first_with(devices, id) == first_with(devices.take(n), id),
    decreases devices.len() - n,
{
    if n < devices.len() {
        assert(devices.take(n + 1).drop_last() == devices.take(n));
        lemma_first_with_extends(devices, id, n + 1);
    } else {
        assert(devices.take(n) == devices);
    }
}

/// A device named among the first `n` is the first named among all.
proof fn lemma_first_named_extends(id: IdentifierView, devices: Seq<BlockDeviceView>, n: int)
    requires
        0 <= n <= devices.len(),
        first_named(id, devices.take(n)) is Some,
    ensures
        first_named(id, devices) == first_named(id, devices.take(n)),
    decreases devices.len() - n,
{
    if n < devices.len() {
        assert(devices.take(n + 1).drop_last() == devices.take(n));
        lemma_first_named_extends(id, devices, n + 1);
    } else {
        assert(devices.take(n) == devices);
    }
}

/// Once the root device is known, further devices change nothing.
proof fn lemma_listened_stops(st: HandlerView, devices: Seq<BlockDeviceView>, n: int)
    requires
        0 <= n <= devices.len(),
        listened(st, devices.take(n)).0.root.devpath is Some,
    ensures
        listened(st, devices) == listened(st, devices.take(n)),
    decreases devices.len() - n,
{
    if n < devices.len() {
        assert(devices.take(n + 1).drop_last() == devices.take(n));
        lemma_listened_stops(st, devices, n + 1);
    } else {
        assert(devices.take(n) == devices);
    }
}

/// Whether `id` names `device`.
fn identifier_names(id: &Identifier, device: &BlockDevice) -> (r: bool)
    ensures
        r == names(id@, device@),
{
    match id {
        Identifier::Path(path) => str_eq(path.as_str(), device.devname.as_str()),
        Identifier::Uuid(uuid) => match &device.uuid {
            Some(found) => str_eq(found.as_str(), uuid.as_str()),
            None => false,
        },
    }
}

/// The handler of block devices: it knows the root device to look for and the
/// encrypted devices of the crypttab.
pub struct DeviceHandler {
    root: RootDevice,
    encrypted_devices: Vec<EncryptedDevice>,
}

impl View for DeviceHandler {
    type V = HandlerView;

    closed spec fn view(&self) -> HandlerView {
        HandlerView { root: self.root@, encrypted_devices: device_views(self.encrypted_devices@) }
    }
}

impl DeviceHandler {
    /// The handler for the crypttab with the lines `crypttab` and the kernel command
    /// line with the arguments `cmdline`. A machine without a crypttab has no such
    /// lines.
    pub fn init(crypttab: &Vec<String>, cmdline: &Vec<String>) -> (r: Result<DeviceHandler, Error>)
        ensures
            match r {
                Ok(handler) => root_of_cmdline(views(cmdline@)) == Ok::<RootDeviceView, Error>(
                    handler@.root,
                ) && handler@.encrypted_devices == crypttab_devices(views(crypttab@)),
                Err(e) => root_of_cmdline(views(cmdline@)) == Err::<RootDeviceView, Error>(e),
            },
    {
        let encrypted_devices = parse_crypttab(crypttab);
        match get_root_from_cmdline(cmdline.as_slice()) {
            Ok(root) => Ok(DeviceHandler { root, encrypted_devices }),
            Err(e) => Err(e),
        }
    }

    /// The index of the first crypttab entry whose identifier is the path `path`, or
    /// else the UUID `uuid`, as `by_uuid` says.
    fn find_entry(&self, text: &str, by_uuid: bool) -> (r: Option<usize>)
        ensures
            match r {
                Some(i) => first_with(
                    self@.encrypted_devices,
                    if by_uuid {
                        IdentifierView::Uuid(text@)
                    } else {
                        IdentifierView::Path(text@)
                    },
                ) == Some(i as int) && i < self@.encrypted_devices.len(),
                None => first_with(
                    self@.encrypted_devices,
                    if by_uuid {
                        IdentifierView::Uuid(text@)
                    } else {
                        IdentifierView::Path(text@)
                    },
                ) is None,
            },
    {
        let ghost id = if by_uuid {
            IdentifierView::Uuid(text@)
        } else {
            IdentifierView::Path(text@)
        };
        let ghost entries = self@.encrypted_devices;
        let mut i: usize = 0;
        assert(entries.take(0) == Seq::<EncryptedDeviceView>::empty());
        while i < self.encrypted_devices.len()
            invariant
                i <= self.encrypted_devices@.len(),
                entries == device_views(self.encrypted_devices@),
                id == if by_uuid {
                    IdentifierView::Uuid(text@)
                } else {
                    IdentifierView::Path(text@)
                },
                first_with(entries.take(i as int), id) is None,
            decreases self.encrypted_devices@.len() - i,
        {
            assert(entries.take(i + 1).drop_last() == entries.take(i as int));
            assert(entries.take(i + 1).last() == self.encrypted_devices@[i as int]@);
            let found = match &self.encrypted_devices[i].identifier {
                Identifier::Path(saved) => !by_uuid && str_eq(saved.as_str(), text),
                Identifier::Uuid(saved) => by_uuid && str_eq(saved.as_str(), text),
            };
            if found {
                proof {
                    lemma_first_with_extends(entries, id, i + 1);
                }
                return Some(i);
            }
            i = i + 1;
        }
        assert(entries.take(i as int) == entries);
        None
    }

    /// The crypttab entry for `device`, if it has one.
    pub fn get_encrypted_device(&self, device: &BlockDevice) -> (r: Option<&EncryptedDevice>)
        ensures
            match r {
                Some(entry) => encrypted_match(self@.encrypted_devices, device@) matches Some(i)
                    && self@.encrypted_devices[i] == entry@,
                None => encrypted_match(self@.encrypted_devices, device@) is None,
            },
    {
        match self.find_entry(device.devname.as_str(), false) {
            Some(i) => Some(&self.encrypted_devices[i]),
            None => {
                let found = match &device.uuid {
                    Some(uuid) => self.find_entry(uuid.as_str(), true),
                    None => {
                        proof {
                            reveal_strlit("");
                            assert(""@ == Seq::<char>::empty());
                        }
                        self.find_entry("", true)
                    },
                };
                match found {
                    Some(i) => Some(&self.encrypted_devices[i]),
                    None => None,
                }
            },
        }
    }

    /// The root device, once its path is known.
    pub fn get_root(self) -> (r: Option<RootDevice>)
        ensures
            match r {
                Some(root) => root@ == self@.root && root@.devpath is Some,
                None => self@.root.devpath is None,
            },
    {
        if self.root.devpath.is_some() {
            Some(self.root)
        } else {
            None
        }
    }

    /// Whether the path of the root device is known.
    pub fn root_found(&self) -> (r: bool)
        ensures
            r == self@.root.devpath is Some,
    {
        self.root.devpath.is_some()
    }

    /// Whether `device` is the root device.
    pub fn is_root(&self, device: &BlockDevice) -> (r: bool)
        ensures
            r == names(self@.root.identifier, device@),
    {
        identifier_names(&self.root.identifier, device)
    }

    /// Looks for the root device among `devices`, the devices that the block device
    /// probe knows: the path of the first that is the root device becomes the path of
    /// the root device, unless that is known already. Returns whether there is one.
    pub fn search_root(&mut self, devices: &Vec<BlockDevice>) -> (r: bool)
        ensures
            match first_named(old(self)@.root.identifier, block_views(devices@)) {
                Some(i) => r && final(self)@ == (HandlerView {
                    root: found_at(old(self)@.root, block_views(devices@)[i].devname),
                    ..old(self)@
                }),
                None => !r && final(self)@ == old(self)@,
            },
    {
        let ghost all = block_views(devices@);
        let ghost id = self@.root.identifier;
        let mut i: usize = 0;
        assert(all.take(0) == Seq::<BlockDeviceView>::empty());
        while i < devices.len()
            invariant
                i <= devices@.len(),
                all == block_views(devices@),
                *self == *old(self),
                id == self@.root.identifier,
                first_named(id, all.take(i as int)) is None,
            decreases devices@.len() - i,
        {
            assert(all.take(i + 1).drop_last() == all.take(i as int));
            assert(all.take(i + 1).last() == devices@[i as int]@);
            if self.is_root(&devices[i]) {
                proof {
                    lemma_first_named_extends(id, all, i + 1);
                }
                self.set_root(devices[i].devname.as_str());
                return true;
            }
            i = i + 1;
        }
        assert(all.take(i as int) == all);
        false
    }

    /// Takes `path` for the path of the root device, unless that is known already.
    fn set_root(&mut self, path: &str)
        ensures
            final(self)@ == (HandlerView { root: found_at(old(self)@.root, path@), ..old(self)@ }),
    {
        if self.root.devpath.is_none() {
            self.root.devpath = Some(String::from_str(path));
        }
    }

    /// The request to unlock the device at `path` as the crypttab entry
    /// `encrypted_device` says.
    pub fn unlock_device(&self, path: &str, encrypted_device: &EncryptedDevice) -> (r: UnlockRequest)
        ensures
            r@ == unlock_request(path@, encrypted_device@),
    {
        match encrypted_device.encryption_type {
            EncryptionType::Luks => unlock_luks_device(path, encrypted_device),
        }
    }

    /// The requests to unlock those of `devices`, the devices that the block device
    /// probe knows, that the crypttab lists.
    pub fn unlock_available_devices(&self, devices: &Vec<BlockDevice>) -> (r: Vec<UnlockRequest>)
        ensures
            request_views(r@) == available_unlocks(self@.encrypted_devices, block_views(devices@)),
    {
        let ghost all = block_views(devices@);
        let ghost entries = self@.encrypted_devices;
        let mut out: Vec<UnlockRequest> = Vec::new();
        let mut i: usize = 0;
        assert(all.take(0) == Seq::<BlockDeviceView>::empty());
        assert(request_views(out@) == Seq::<UnlockRequestView>::empty());
        while i < devices.len()
            invariant
                i <= devices@.len(),
                all == block_views(devices@),
                entries == device_views(self.encrypted_devices@),
                request_views(out@) == available_unlocks(entries, all.take(i as int)),
            decreases devices@.len() - i,
        {
            assert(all.take(i + 1).drop_last() == all.take(i as int));
            assert(all.take(i + 1).last() == devices@[i as int]@);
            let device = &devices[i];
            let ghost before = request_views(out@);
            let mut j: usize = 0;
            assert(entries.take(0) == Seq::<EncryptedDeviceView>::empty());
            assert(before + Seq::<UnlockRequestView>::empty() == before);
            while j < self.encrypted_devices.len()
                invariant
                    j <= self.encrypted_devices@.len(),
                    entries == device_views(self.encrypted_devices@),
                    request_views(out@) == before + unlocks_for(entries.take(j as int), device@),
                decreases self.encrypted_devices@.len() - j,
            {
                assert(entries.take(j + 1).drop_last() == entries.take(j as int));
                assert(entries.take(j + 1).last() == self.encrypted_devices@[j as int]@);
                let entry = &self.encrypted_devices[j];
                if identifier_names(&entry.identifier, device) {
                    let request = self.unlock_device(device.devname.as_str(), entry);
                    let ghost so_far = request_views(out@);
                    out.push(request);
                    assert(request_views(out@) == so_far.push(request@));
                    assert(before + unlocks_for(entries.take(j as int), device@).push(request@)
                        == (before + unlocks_for(entries.take(j as int), device@)).push(request@));
                }
                j = j + 1;
            }
            assert(entries.take(j as int) == entries);
            i = i + 1;
        }
        assert(all.take(i as int) == all);
        out
    }

    /// Decides what is to be done about `device`, a block device that has appeared, and
    /// takes its path for the root device's where it is the root device.
    pub fn handle(&mut self, device: &BlockDevice) -> (r: DeviceAction)
        ensures
            (final(self)@, r@) == handled(old(self)@, device@),
    {
        match self.get_encrypted_device(device) {
            Some(entry) => {
                return DeviceAction::Unlock(self.unlock_device(device.devname.as_str(), entry));
            },
            None => {},
        }
        if self.is_root(device) {
            self.set_root(device.devname.as_str());
            return DeviceAction::RootFound;
        }
        match &device.fstype {
            Some(fstype) => if str_eq(fstype.as_str(), "lvm") {
                DeviceAction::ActivateLvm
            } else {
                DeviceAction::Nothing
            },
            None => DeviceAction::Nothing,
        }
    }

    /// Handles `devices`, the block devices that have appeared, one after the other,
    /// until the root device is known. Returns what is to be done about each device
    /// that was handled.
    pub fn listen(&mut self, devices: &Vec<BlockDevice>) -> (r: Vec<DeviceAction>)
        ensures
            (final(self)@, action_views(r@)) == listened(old(self)@, block_views(devices@)),
    {
        let ghost all = block_views(devices@);
        let mut actions: Vec<DeviceAction> = Vec::new();
        let mut i: usize = 0;
        assert(all.take(0) == Seq::<BlockDeviceView>::empty());
        assert(action_views(actions@) == Seq::<DeviceActionView>::empty());
        while i < devices.len()
            invariant
                i <= devices@.len(),
                all == block_views(devices@),
                (self@, action_views(actions@)) == listened(old(self)@, all.take(i as int)),
            decreases devices@.len() - i,
        {
            if self.root_found() {
                proof {
                    lemma_listened_stops(old(self)@, all, i as int);
                }
                return actions;
            }
            assert(all.take(i + 1).drop_last() == all.take(i as int));
            assert(all.take(i + 1).last() == devices@[i as int]@);
            let action = self.handle(&devices[i]);
            let ghost before = action_views(actions@);
            actions.push(action);
            assert(action_views(actions@) == before.push(action@));
            i = i + 1;
        }
        assert(all.take(i as int) == all);
        actions
    }
}

/// The request to unlock the LUKS device at `path` as `encrypted_device` says.
fn unlock_luks_device(path: &str, encrypted_device: &EncryptedDevice) -> (r: UnlockRequest)
    ensures
        r@ == unlock_request(path@, encrypted_device@),
{
    let secret = match &encrypted_device.unlock {
        UnlockType::Key(key) => Secret::Keyfile(key.clone()),
        UnlockType::AskPassphrase => Secret::Passphrase(ask_passphrase_for_device(encrypted_device)),
    };
    UnlockRequest { device: String::from_str(path), name: encrypted_device.name.clone(), secret }
}

/// The prompt with which the user is asked for the passphrase of `encrypted_device`.
fn ask_passphrase_for_device(encrypted_device: &EncryptedDevice) -> (r: String)
    ensures
        r@ == "Password for device "@ + (match encrypted_device@.identifier {
            IdentifierView::Path(p) => debug_quoted(p),
            IdentifierView::Uuid(u) => u,
        }) + ": "@,
{
    let shown = encrypted_device.identifier.to_text();
    String::from_str("Password for device ").concat(shown.as_str()).concat(": ")
}

} // verus!
