//! The encrypted devices that the crypttab lists.

use crate::encryption_type::EncryptionType;
use crate::error::Error;
use crate::identifier::{parse_identifier, Identifier, IdentifierView};
use crate::text::{chars_of, split_whitespace, views, words};
use crate::unlock_type::{parse_unlock, UnlockType, UnlockView};
use vstd::prelude::*;
use vstd::string::*;

verus! {

/// A line of the crypttab: a device to unlock.
#[derive(Debug, PartialEq, Eq)]
pub struct EncryptedDevice {
    /// The name under which the unlocked device is mapped.
    pub name: String,
    /// The device that holds the encrypted data.
    pub identifier: Identifier,
    pub encryption_type: EncryptionType,
    pub unlock: UnlockType,
}

/// What an `EncryptedDevice` holds, as mathematical values.
pub struct EncryptedDeviceView {
    pub name: Seq<char>,
    pub identifier: IdentifierView,
    pub encryption_type: EncryptionType,
    pub unlock: UnlockView,
}

impl View for EncryptedDevice {
    type V = EncryptedDeviceView;

    open spec fn view(&self) -> EncryptedDeviceView {
        EncryptedDeviceView {
            name: self.name@,
            identifier: self.identifier@,
            encryption_type: self.encryption_type,
            unlock: self.unlock@,
        }
    }
}

/// What a line of the crypttab says. Its first four words are the name, the
/// identifier, the encryption and the way to unlock; further words are passed over. A
/// line of fewer words is an error, and so is an encryption other than `luks`.
pub open spec fn parse_crypttab_line(line: Seq<char>) -> Result<EncryptedDeviceView, Error> {
    let fields = words(line);
    if fields.len() < 3 {
        Err(Error::CrypttabParse)
    } else if fields[2] != "luks"@ {
        Err(Error::UnsupportedEncryption)
    } else if fields.len() < 4 {
        Err(Error::CrypttabParse)
    } else {
        Ok(
            EncryptedDeviceView {
                name: fields[0],
                identifier: parse_identifier(fields[1]),
                encryption_type: EncryptionType::Luks,
                unlock: parse_unlock(fields[3]),
            },
        )
    }
}

impl EncryptedDevice {
    /// Parses a line of the crypttab.
    pub fn from_line(line: String) -> (r: Result<EncryptedDevice, Error>)
        ensures
            match r {
                Ok(device) => parse_crypttab_line(line@) == Ok::<EncryptedDeviceView, Error>(
                    device@,
                ),
                Err(e) => parse_crypttab_line(line@) == Err::<EncryptedDeviceView, Error>(e),
            },
    {
        let fields = split_whitespace(line.as_str());
        assert(forall|i: int| 0 <= i < fields@.len() ==> views(fields@)[i] == fields@[i]@);
        if fields.len() < 3 {
            return Err(Error::CrypttabParse);
        }
        let encryption_type = match EncryptionType::try_from(fields[2].as_str()) {
            Ok(encryption_type) => encryption_type,
            Err(e) => {
                return Err(e);
            },
        };
        if fields.len() < 4 {
            return Err(Error::CrypttabParse);
        }
        Ok(
            EncryptedDevice {
                name: fields[0].clone(),
                identifier: Identifier::from(fields[1].as_str()),
                encryption_type,
                unlock: UnlockType::from(fields[3].as_str()),
            },
        )
    }
}

/// The devices that the lines of a crypttab list, in order: lines that start with `#`,
/// empty lines and lines in error are passed over.
pub open spec fn crypttab_devices(lines: Seq<Seq<char>>) -> Seq<EncryptedDeviceView>
    decreases lines.len(),
{
    if lines.len() == 0 {
        Seq::empty()
    } else {
        let line = lines.last();
        let before = crypttab_devices(lines.drop_last());
        if line.len() == 0 || line[0] == '#' {
            before
        } else {
            match parse_crypttab_line(line) {
                Ok(device) => before.push(device),
                Err(_) => before,
            }
        }
    }
}

/// The views of `devices`, in order.
pub open spec fn device_views(devices: Seq<EncryptedDevice>) -> Seq<EncryptedDeviceView> {
    devices.map_values(|d: EncryptedDevice| d@)
}

/// Parses the lines of a crypttab.
pub fn parse_crypttab(lines: &Vec<String>) -> (r: Vec<EncryptedDevice>)
    ensures
        device_views(r@) == crypttab_devices(views(lines@)),
{
    let mut out: Vec<EncryptedDevice> = Vec::new();
    let mut i: usize = 0;
    assert(views(lines@).take(0) == Seq::<Seq<char>>::empty());
    assert(device_views(out@) == Seq::<EncryptedDeviceView>::empty());
    while i < lines.len()
        invariant
            i <= lines@.len(),
            device_views(out@) == crypttab_devices(views(lines@).take(i as int)),
        decreases lines@.len() - i,
    {
        let ghost prefix = views(lines@).take(i + 1);
        assert(prefix.drop_last() == views(lines@).take(i as int));
        assert(prefix.last() == lines@[i as int]@);
        let line = lines[i].clone();
        let chars = chars_of(line.as_str());
        if chars.len() > 0 && chars[0] != '#' {
            match EncryptedDevice::from_line(line) {
                Ok(device) => {
                    let ghost before = device_views(out@);
                    out.push(device);
                    assert(device_views(out@) == before.push(device@));
                },
                Err(_) => {},
            }
        }
        i = i + 1;
    }
    assert(views(lines@).take(i as int) == views(lines@));
    out
}

} // verus!
