//! The kernel's messages about devices, and what they say about block devices.
//!
//! A message is a run of fields that end in a NUL byte each. The first is the action
//! and the device path with an `@` between them, the others are variables of the form
//! `KEY=VALUE`.

use crate::error::Error;
use crate::path::{file_name, file_name_range};
use crate::text::{
    chars_of, has_prefix, index_of, split, str_eq, substring, trim, trimmed,
};
use bstr::ByteSlice;
use vstd::hash_map::StringHashMap;
use vstd::prelude::*;
use vstd::slice::*;
use vstd::string::*;
use vstd::utf8::{decode_utf8, valid_utf8};

verus! {

/// `bstr::ByteSlice::find_char` for a character of ASCII: the index of the first byte
/// of `haystack` that is `ch`.
#[verifier::external_body]
fn find_ascii(haystack: &[u8], ch: char) -> (r: Option<usize>)
    requires
        (ch as u32) < 0x80,
    ensures
        match r {
            Some(i) => i < haystack@.len() && i == index_of(haystack@, ch as u8),
            None => index_of(haystack@, ch as u8) == haystack@.len(),
        },
{
    haystack.find_char(ch)
}

/// `String::from_utf8`: the text that `bytes` encode, where they are valid UTF-8.
#[verifier::external_body]
fn string_from_utf8(bytes: &[u8]) -> (r: Option<String>)
    ensures
        match r {
            Some(text) => valid_utf8(bytes@) && text@ == decode_utf8(bytes@),
            None => !valid_utf8(bytes@),
        },
{
    String::from_utf8(bytes.to_vec()).ok()
}

/// The text that `bytes` encode, unless they hold a NUL or are no valid UTF-8.
pub open spec fn text_of(bytes: Seq<u8>) -> Option<Seq<char>> {
    if bytes.contains(0u8) || !valid_utf8(bytes) {
        None
    } else {
        Some(decode_utf8(bytes))
    }
}

/// The variable that the field `line` holds: the text before its first `=` is the
/// key, the text after it the value.
pub open spec fn parse_var(line: Seq<u8>) -> Option<(Seq<char>, Seq<char>)> {
    let eq = index_of(line, 0x3du8);
    if eq >= line.len() {
        None
    } else {
        match (text_of(line.take(eq)), text_of(line.skip(eq + 1))) {
            (Some(key), Some(value)) => Some((key, value)),
            _ => None,
        }
    }
}

/// The variables that the fields `lines` hold: fields that hold none are passed over,
/// and of two values for one key the later one stays.
pub open spec fn vars_of(lines: Seq<Seq<u8>>) -> Map<Seq<char>, Seq<char>>
    decreases lines.len(),
{
    if lines.len() == 0 {
        Map::empty()
    } else {
        let vars = vars_of(lines.drop_last());
        match parse_var(lines.last()) {
            Some((key, value)) => vars.insert(key, value),
            None => vars,
        }
    }
}

/// What a `Uevent` holds, as mathematical values.
pub struct UeventView {
    pub name: Seq<char>,
    pub vars: Map<Seq<char>, Seq<char>>,
}

/// What the message `buf` says, if it is well formed: its first field holds an `@` and
/// is text.
pub open spec fn uevent_of(buf: Seq<u8>) -> Option<UeventView> {
    let fields = split(buf, 0u8);
    let name = fields[0];
    if index_of(name, 0x40u8) >= name.len() {
        None
    } else {
        match text_of(name) {
            Some(name) => Some(UeventView { name, vars: vars_of(fields.skip(1)) }),
            None => None,
        }
    }
}

/// A message of the kernel about a device.
pub struct Uevent {
    name: String,
    vars: StringHashMap<String>,
}

impl View for Uevent {
    type V = UeventView;

    closed spec fn view(&self) -> UeventView {
        UeventView { name: self.name@, vars: self.vars@.map_values(|v: String| v@) }
    }
}

impl Uevent {
    /// The first field of the message: action and device path.
    pub fn name(&self) -> (r: &str)
        ensures
            r@ == self@.name,
    {
        self.name.as_str()
    }

    /// The value of the variable `key`.
    pub fn get(&self, key: &str) -> (r: Option<&String>)
        ensures
            match r {
                Some(value) => self@.vars.contains_key(key@) && self@.vars[key@] == value@,
                None => !self@.vars.contains_key(key@),
            },
    {
        self.vars.get(key)
    }

    /// The modalias of the device, where the message gives one: the module that serves
    /// the device is loaded by it.
    pub fn modalias(&self) -> (r: Option<&String>)
        ensures
            match r {
                Some(value) => self@.vars.contains_key("MODALIAS"@) && self@.vars["MODALIAS"@]
                    == value@,
                None => !self@.vars.contains_key("MODALIAS"@),
            },
    {
        self.vars.get("MODALIAS")
    }
}

/// The text that `bytes` encode.
fn text(bytes: &[u8]) -> (r: Option<String>)
    ensures
        match r {
            Some(s) => text_of(bytes@) == Some(s@),
            None => text_of(bytes@) is None,
        },
{
    let mut i: usize = 0;
    while i < bytes.len()
        invariant
            i <= bytes@.len(),
            forall|k: int| 0 <= k < i ==> bytes@[k] != 0u8,
        decreases bytes@.len() - i,
    {
        if bytes[i] == 0u8 {
            return None;
        }
        i = i + 1;
    }
    string_from_utf8(bytes)
}

/// Parses a field of the form `KEY=VALUE`.
pub fn parse_line(line: &[u8]) -> (r: Result<(String, String), Error>)
    ensures
        match r {
            Ok((key, value)) => parse_var(line@) == Some((key@, value@)),
            Err(e) => parse_var(line@) is None && e == Error::UeventParse,
        },
{
    let len: usize = line.len();
    let eq: usize = match find_ascii(line, '=') {
        Some(eq) => eq,
        None => {
            return Err(Error::UeventParse);
        },
    };
    assert(line@.subrange(0, eq as int) == line@.take(eq as int));
    assert(line@.subrange(eq + 1, len as int) == line@.skip(eq + 1));
    let key = match text(slice_subrange(line, 0, eq)) {
        Some(key) => key,
        None => {
            return Err(Error::UeventParse);
        },
    };
    let value = match text(slice_subrange(line, eq + 1, len)) {
        Some(value) => value,
        None => {
            return Err(Error::UeventParse);
        },
    };
    Ok((key, value))
}

/// The index of the first NUL in `bytes` at or after `from`, or the length of `bytes`.
fn field_end(bytes: &[u8], from: usize) -> (r: usize)
    requires
        from <= bytes@.len(),
    ensures
        from <= r <= bytes@.len(),
        r - from == index_of(bytes@.skip(from as int), 0u8),
{
    let mut i: usize = from;
    while i < bytes.len() && bytes[i] != 0u8
        invariant
            from <= i <= bytes@.len(),
            forall|k: int| from <= k < i ==> bytes@[k] != 0u8,
        decreases bytes@.len() - i,
    {
        i = i + 1;
    }
    proof {
        crate::text::lemma_index_of_unique(bytes@.skip(from as int), 0u8, i - from);
    }
    i
}

/// Parses a message of the kernel.
pub fn parse_uevent(buf: &[u8]) -> (r: Result<Uevent, Error>)
    ensures
        match r {
            Ok(uevent) => uevent_of(buf@) == Some(uevent@),
            Err(e) => uevent_of(buf@) is None && e == Error::UeventParse,
        },
{
    let len: usize = buf.len();
    assert(buf@.skip(0) == buf@);
    let first_end: usize = field_end(buf, 0);
    let head = slice_subrange(buf, 0, first_end);
    assert(head@ == buf@.take(first_end as int));
    let ghost fields = split(buf@, 0u8);
    assert(fields[0] == head@);
    if find_ascii(head, '@').is_none() {
        return Err(Error::UeventParse);
    }
    let name = match text(head) {
        Some(name) => name,
        None => {
            return Err(Error::UeventParse);
        },
    };
    let mut vars: StringHashMap<String> = StringHashMap::new();
    let ghost mut done: Seq<Seq<u8>> = Seq::empty();
    assert(vars@.map_values(|v: String| v@) == Map::<Seq<char>, Seq<char>>::empty());
    if first_end < len {
        let mut pos: usize = first_end + 1;
        assert(fields.skip(1) == split(buf@.skip(pos as int), 0u8));
        loop
            invariant_except_break
                fields.skip(1) == done + split(buf@.skip(pos as int), 0u8),
                vars@.map_values(|v: String| v@) == vars_of(done),
            invariant
                pos <= len == buf@.len(),
                fields == split(buf@, 0u8),
            ensures
                vars@.map_values(|v: String| v@) == vars_of(fields.skip(1)),
            decreases len - pos,
        {
            let ghost rest = buf@.skip(pos as int);
            let end: usize = field_end(buf, pos);
            let field = slice_subrange(buf, pos, end);
            assert(field@ == rest.take(end - pos));
            proof {
                assert(done.push(field@).drop_last() == done);
            }
            match parse_line(field) {
                Ok((key, value)) => {
                    let ghost before = vars@;
                    vars.insert(key, value);
                    assert(vars@.map_values(|v: String| v@) == before.map_values(
                        |v: String| v@,
                    ).insert(key@, value@));
                },
                Err(_) => {},
            }
            if end >= len {
                proof {
                    assert(field@ == rest);
                    assert(done + seq![rest] == done.push(field@));
                }
                break;
            }
            proof {
                assert(rest.skip(end - pos + 1) == buf@.skip(end + 1));
                assert(done + (seq![field@] + split(rest.skip(end - pos + 1), 0u8)) == done.push(
                    field@,
                ) + split(rest.skip(end - pos + 1), 0u8));
                done = done.push(field@);
            }
            pos = end + 1;
        }
    } else {
        assert(fields == seq![buf@]);
        assert(fields.skip(1) == Seq::<Seq<u8>>::empty());
    }
    Ok(Uevent { name, vars })
}

/// What a message says about a block device.
#[derive(Debug, PartialEq, Eq)]
pub enum DevicePath {
    /// Nothing: the message is not about a block device that has just become usable.
    Ignored,
    /// The device is usable at this path.
    Node(String),
    /// The device is a mapped device. The file at this path holds its name, from which
    /// `mapper_node` gives the path of the device.
    Mapper(String),
}

/// What a `DevicePath` holds, as mathematical values.
pub enum DevicePathView {
    Ignored,
    Node(Seq<char>),
    Mapper(Seq<char>),
}

impl View for DevicePath {
    type V = DevicePathView;

    open spec fn view(&self) -> DevicePathView {
        match self {
            DevicePath::Ignored => DevicePathView::Ignored,
            DevicePath::Node(path) => DevicePathView::Node(path@),
            DevicePath::Mapper(file) => DevicePathView::Mapper(file@),
        }
    }
}

/// What a message with the variables `vars` says about a block device. A message
/// without `DEVPATH`, `ACTION` or `SUBSYSTEM`, or whose device path has no final
/// component, is an error. A message of another subsystem than `block` is passed over.
/// A device whose name starts with `dm-` counts when the action is `change`, any other
/// when the action is `add`.
pub open spec fn device_of(vars: Map<Seq<char>, Seq<char>>) -> Result<DevicePathView, Error> {
    if !vars.contains_key("DEVPATH"@) {
        Err(Error::UeventParse)
    } else {
        match file_name(vars["DEVPATH"@]) {
            None => Err(Error::UeventParse),
            Some(devname) => if !vars.contains_key("ACTION"@) || !vars.contains_key(
                "SUBSYSTEM"@,
            ) {
                Err(Error::UeventParse)
            } else if vars["SUBSYSTEM"@] != "block"@ {
                Ok(DevicePathView::Ignored)
            } else if "dm-"@.is_prefix_of(devname) {
                if vars["ACTION"@] == "change"@ {
                    Ok(DevicePathView::Mapper("/sys"@ + vars["DEVPATH"@] + "/dm/name"@))
                } else {
                    Ok(DevicePathView::Ignored)
                }
            } else {
                if vars["ACTION"@] == "add"@ {
                    Ok(DevicePathView::Node("/dev/"@ + devname))
                } else {
                    Ok(DevicePathView::Ignored)
                }
            },
        }
    }
}

/// What the message `uevent` says about a block device.
pub fn get_device_path(uevent: &Uevent) -> (r: Result<DevicePath, Error>)
    ensures
        match r {
            Ok(path) => device_of(uevent@.vars) == Ok::<DevicePathView, Error>(path@),
            Err(e) => device_of(uevent@.vars) == Err::<DevicePathView, Error>(e),
        },
{
    let devpath = match uevent.get("DEVPATH") {
        Some(devpath) => devpath,
        None => {
            return Err(Error::UeventParse);
        },
    };
    let chars = chars_of(devpath.as_str());
    let devname = match file_name_range(chars.as_slice()) {
        Some((from, to)) => substring(devpath.as_str(), from, to),
        None => {
            return Err(Error::UeventParse);
        },
    };
    let action = match uevent.get("ACTION") {
        Some(action) => action,
        None => {
            return Err(Error::UeventParse);
        },
    };
    let subsystem = match uevent.get("SUBSYSTEM") {
        Some(subsystem) => subsystem,
        None => {
            return Err(Error::UeventParse);
        },
    };
    if !str_eq(subsystem.as_str(), "block") {
        return Ok(DevicePath::Ignored);
    }
    if has_prefix(devname.as_str(), "dm-") {
        if str_eq(action.as_str(), "change") {
            Ok(
                DevicePath::Mapper(
                    String::from_str("/sys").concat(devpath.as_str()).concat("/dm/name"),
                ),
            )
        } else {
            Ok(DevicePath::Ignored)
        }
    } else {
        if str_eq(action.as_str(), "add") {
            Ok(DevicePath::Node(String::from_str("/dev/").concat(devname.as_str())))
        } else {
            Ok(DevicePath::Ignored)
        }
    }
}

/// The path of the mapped device whose name file holds `dm_name`: the name without the
/// whitespace around it, under `/dev/mapper/`.
pub fn mapper_node(dm_name: &str) -> (r: String)
    ensures
        r@ == "/dev/mapper/"@ + trimmed(dm_name@),
{
    let name = trim(dm_name);
    String::from_str("/dev/mapper/").concat(name.as_str())
}

/// What is to be done about a message of the kernel.
pub struct Notice {
    /// The modalias of the device: the module for it is to be loaded first, and a
    /// failure to do so does not stop what follows.
    pub modalias: Option<String>,
    /// What the message says about a block device.
    pub device: Result<DevicePath, Error>,
}

/// What a `Notice` holds, as mathematical values.
pub struct NoticeView {
    pub modalias: Option<Seq<char>>,
    pub device: Result<DevicePathView, Error>,
}

impl View for Notice {
    type V = NoticeView;

    open spec fn view(&self) -> NoticeView {
        NoticeView {
            modalias: match self.modalias {
                Some(m) => Some(m@),
                None => None,
            },
            device: match self.device {
                Ok(path) => Ok(path@),
                Err(e) => Err(e),
            },
        }
    }
}

/// What is to be done about the `received` bytes that stand at the start of `buf`:
/// nothing where nothing was received or the message is malformed; else the message is
/// what stands before the last of the bytes.
pub open spec fn notice_of(buf: Seq<u8>, received: int) -> Option<NoticeView> {
    if received <= 0 || received > buf.len() {
        None
    } else {
        match uevent_of(buf.take(received - 1)) {
            None => None,
            Some(uevent) => Some(
                NoticeView {
                    modalias: if uevent.vars.contains_key("MODALIAS"@) {
                        Some(uevent.vars["MODALIAS"@])
                    } else {
                        None
                    },
                    device: device_of(uevent.vars),
                },
            ),
        }
    }
}

/// Decides what is to be done about the `received` bytes that the socket put at the
/// start of `buf`.
pub fn on_message(buf: &[u8], received: usize) -> (r: Option<Notice>)
    ensures
        match r {
            Some(notice) => notice_of(buf@, received as int) == Some(notice@),
            None => notice_of(buf@, received as int) is None,
        },
{
    if received == 0 || received > buf.len() {
        return None;
    }
    let message = slice_subrange(buf, 0, received - 1);
    assert(message@ == buf@.take(received - 1));
    match parse_uevent(message) {
        Err(_) => None,
        Ok(uevent) => {
            let modalias = match uevent.modalias() {
                Some(m) => Some(m.clone()),
                None => None,
            };
            let device = get_device_path(&uevent);
            Some(Notice { modalias, device })
        },
    }
}

} // verus!
