//! The cpio "newc" archive format, as the Linux kernel unpacks it into an initramfs.
//!
//! An archive is a sequence of entries followed by a trailer entry. Every entry is a
//! 110 byte ASCII header, the entry's name with a terminating NUL, and its data; name
//! and data are each followed by zero bytes up to the next multiple of four.

use vstd::prelude::*;
use vstd::slice::*;
use vstd::string::*;

verus! {

/// The first inode number handed out; the entry at index `i` gets `INO_OFFSET + i`.
pub const INO_OFFSET: u64 = 1337;

/// The largest value that fits the eight hex digits of a header field.
pub const FIELD_MAX: u64 = 0xffff_ffff;

/// Why an entry cannot be written.
#[derive(Debug, Clone, Copy, PartialEq, Eq, Structural)]
pub enum NewcError {
    /// The entry's name holds a NUL byte.
    NameHasNul,
    /// A header field needs more than eight hex digits.
    FieldTooLarge,
}

/// What an entry holds, as mathematical values.
pub struct EntryView {
    pub name: Seq<u8>,
    pub ino: u64,
    pub mode: u32,
    pub uid: u64,
    pub gid: u64,
    pub nlink: u64,
    pub mtime: u64,
    pub dev_major: u64,
    pub dev_minor: u64,
    pub rdev_major: u64,
    pub rdev_minor: u64,
    pub data: Option<Seq<u8>>,
}

/// The six bytes `070701` that open every header.
pub open spec fn magic() -> Seq<u8> {
    seq![0x30u8, 0x37u8, 0x30u8, 0x37u8, 0x30u8, 0x31u8]
}

/// The name of the entry that ends an archive: `TRAILER!!!`.
pub open spec fn trailer_name() -> Seq<u8> {
    seq![0x54u8, 0x52u8, 0x41u8, 0x49u8, 0x4cu8, 0x45u8, 0x52u8, 0x21u8, 0x21u8, 0x21u8]
}

/// The lowercase hex digit of `n`, for `n` below 16.
pub open spec fn hex_digit(n: int) -> u8 {
    if n < 10 {
        (0x30 + n) as u8
    } else {
        (0x61 + n - 10) as u8
    }
}

/// The last `width` hex digits of `v`, most significant first.
pub open spec fn hex_digits(v: int, width: nat) -> Seq<u8>
    decreases width,
{
    if width == 0 {
        Seq::empty()
    } else {
        hex_digits(v / 16, (width - 1) as nat).push(hex_digit(v % 16))
    }
}

/// A header field: `v` in eight lowercase hex digits.
pub open spec fn hex_field(v: int) -> Seq<u8> {
    hex_digits(v, 8)
}

/// The size of the entry's data, 0 where it has none.
pub open spec fn file_size(e: EntryView) -> int {
    match e.data {
        Some(d) => d.len() as int,
        None => 0,
    }
}

/// The 110 bytes of the entry's header.
pub open spec fn header(e: EntryView) -> Seq<u8> {
    magic() + hex_field(e.ino as int) + hex_field(e.mode as int) + hex_field(e.uid as int)
        + hex_field(e.gid as int) + hex_field(e.nlink as int) + hex_field(e.mtime as int)
        + hex_field(file_size(e)) + hex_field(e.dev_major as int) + hex_field(
        e.dev_minor as int,
    ) + hex_field(e.rdev_major as int) + hex_field(e.rdev_minor as int) + hex_field(
        (e.name.len() + 1) as int,
    ) + hex_field(0)
}

/// How many zero bytes bring a buffer of `len` bytes to a multiple of four.
pub open spec fn pad_len(len: int) -> int {
    (4 - len % 4) % 4
}

/// `buf`, followed by zero bytes up to the next multiple of four.
pub open spec fn padded(buf: Seq<u8>) -> Seq<u8> {
    buf + Seq::new(pad_len(buf.len() as int) as nat, |i: int| 0u8)
}

/// The first reason why `e` cannot be written, if there is one.
pub open spec fn entry_error(e: EntryView) -> Option<NewcError> {
    if e.name.contains(0u8) {
        Some(NewcError::NameHasNul)
    } else if e.ino > FIELD_MAX || e.uid > FIELD_MAX || e.gid > FIELD_MAX || e.nlink > FIELD_MAX
        || e.mtime > FIELD_MAX || e.dev_major > FIELD_MAX || e.dev_minor > FIELD_MAX
        || e.rdev_major > FIELD_MAX || e.rdev_minor > FIELD_MAX || file_size(e) > FIELD_MAX
        || e.name.len() + 1 > FIELD_MAX {
        Some(NewcError::FieldTooLarge)
    } else {
        None
    }
}

/// `buf` after `e` has been written to it: header, name and NUL, padding, then the data
/// and its padding where the entry has data.
pub open spec fn written(buf: Seq<u8>, e: EntryView) -> Seq<u8> {
    let named = padded(buf + header(e) + e.name.push(0u8));
    match e.data {
        Some(d) => padded(named + d),
        None => named,
    }
}

/// The entry with the inode number of the place `index` in an archive.
pub open spec fn numbered(e: EntryView, index: int) -> EntryView {
    EntryView { ino: (INO_OFFSET + index) as u64, ..e }
}

/// The trailer entry: named `TRAILER!!!`, every field zero, no data.
pub open spec fn trailer_view() -> EntryView {
    EntryView {
        name: trailer_name(),
        ino: 0,
        mode: 0,
        uid: 0,
        gid: 0,
        nlink: 0,
        mtime: 0,
        dev_major: 0,
        dev_minor: 0,
        rdev_major: 0,
        rdev_minor: 0,
        data: None,
    }
}

/// The bytes of the entries alone, each numbered by its place, without the trailer.
pub open spec fn entries_image(entries: Seq<EntryView>) -> Seq<u8>
    decreases entries.len(),
{
    if entries.len() == 0 {
        Seq::empty()
    } else {
        written(
            entries_image(entries.drop_last()),
            numbered(entries.last(), entries.len() - 1),
        )
    }
}

/// The error of the first entry that cannot be written once numbered, if there is one.
pub open spec fn archive_error(entries: Seq<EntryView>) -> Option<NewcError>
    decreases entries.len(),
{
    if entries.len() == 0 {
        None
    } else {
        match archive_error(entries.drop_last()) {
            Some(e) => Some(e),
            None => if INO_OFFSET + entries.len() - 1 > FIELD_MAX {
                Some(NewcError::FieldTooLarge)
            } else {
                entry_error(numbered(entries.last(), entries.len() - 1))
            },
        }
    }
}

/// The whole archive: the numbered entries, then the trailer.
pub open spec fn archive_image(entries: Seq<EntryView>) -> Seq<u8> {
    written(entries_image(entries), trailer_view())
}

/// The major number of a device, as glibc's `gnu_dev_major` splits a `dev_t`.
pub open spec fn spec_major(dev: u64) -> u64 {
    ((dev >> 32) & 0xffff_f000) | ((dev >> 8) & 0x0000_0fff)
}

/// The minor number of a device, as glibc's `gnu_dev_minor` splits a `dev_t`.
pub open spec fn spec_minor(dev: u64) -> u64 {
    ((dev >> 12) & 0xffff_ff00) | (dev & 0x0000_00ff)
}

/// Major number of the device id `dev`.
pub fn major(dev: u64) -> (r: u64)
    ensures
        r == spec_major(dev),
        r <= FIELD_MAX,
{
    assert((((dev >> 32) & 0xffff_f000) | ((dev >> 8) & 0x0000_0fff)) <= 0xffff_ffff)
        by (bit_vector);
    ((dev >> 32) & 0xffff_f000) | ((dev >> 8) & 0x0000_0fff)
}

/// Minor number of the device id `dev`.
pub fn minor(dev: u64) -> (r: u64)
    ensures
        r == spec_minor(dev),
        r <= FIELD_MAX,
{
    assert((((dev >> 12) & 0xffff_ff00) | (dev & 0x0000_00ff)) <= 0xffff_ffff) by (bit_vector);
    ((dev >> 12) & 0xffff_ff00) | (dev & 0x0000_00ff)
}

/// Appends zero bytes to `buf` until its length is a multiple of four.
pub fn pad_buf(buf: &mut Vec<u8>)
    ensures
        final(buf)@ == padded(old(buf)@),
        final(buf)@.len() % 4 == 0,
{
    let ghost start = buf@;
    while buf.len() % 4 != 0
        invariant
            buf@.len() >= start.len(),
            buf@.len() - start.len() <= pad_len(start.len() as int),
            (buf@.len() - start.len()) == pad_len(start.len() as int) <==> buf@.len() % 4 == 0,
            buf@ == start + Seq::new((buf@.len() - start.len()) as nat, |i: int| 0u8),
        decreases pad_len(start.len() as int) - (buf@.len() - start.len()),
    {
        buf.push(0u8);
    }
}

/// Appends the eight hex digits of `v` to `buf`.
fn write_hex(buf: &mut Vec<u8>, v: u32)
    ensures
        final(buf)@ == old(buf)@ + hex_field(v as int),
{
    let mut digits: [u8; 8] = [0u8; 8];
    let mut rest: u32 = v;
    let mut i: usize = 8;
    while i > 0
        invariant
            i <= 8,
            digits@.len() == 8,
            hex_digits(v as int, 8) == hex_digits(rest as int, i as nat) + digits@.subrange(
                i as int,
                8,
            ),
        decreases i,
    {
        let nibble: u32 = rest % 16;
        let digit: u8 = if nibble < 10 {
            (0x30 + nibble) as u8
        } else {
            (0x61 + nibble - 10) as u8
        };
        let ghost before = digits@;
        i = i - 1;
        digits[i] = digit;
        assert(digits@.subrange(i as int, 8) == seq![digit] + before.subrange(i + 1, 8));
        assert(hex_digits(rest as int, (i + 1) as nat) == hex_digits(
            rest as int / 16,
            i as nat,
        ).push(digit));
        rest = rest / 16;
    }
    assert(digits@.subrange(0, 8) == digits@);
    buf.extend_from_slice(&digits);
}

/// `path` without the `/` characters that it starts with.
pub open spec fn strip_root(path: Seq<u8>) -> Seq<u8>
    decreases path.len(),
{
    if path.len() > 0 && path[0] == 0x2fu8 {
        strip_root(path.drop_first())
    } else {
        path
    }
}

/// The name of an entry: a path without a leading `/`, as bytes.
#[derive(Debug, PartialEq, Eq)]
pub struct EntryName {
    name: Vec<u8>,
}

impl View for EntryName {
    type V = Seq<u8>;

    closed spec fn view(&self) -> Seq<u8> {
        self.name@
    }
}

impl EntryName {
    /// The name for the file at `path`: its bytes, without the leading `/` of an
    /// absolute path.
    pub fn new(path: &str) -> (r: EntryName)
        ensures
            r@ == strip_root(path.spec_bytes()),
    {
        let bytes = path.as_bytes();
        let mut start: usize = 0;
        assert(bytes@.subrange(0, bytes@.len() as int) == bytes@);
        while start < bytes.len() && bytes[start] == 0x2fu8
            invariant
                start <= bytes@.len(),
                strip_root(bytes@) == strip_root(bytes@.subrange(start as int, bytes@.len() as int)),
            decreases bytes@.len() - start,
        {
            assert(bytes@.subrange(start as int, bytes@.len() as int).drop_first()
                == bytes@.subrange(start + 1, bytes@.len() as int));
            start = start + 1;
        }
        let name = slice_to_vec(slice_subrange(bytes, start, bytes.len()));
        EntryName { name }
    }

    /// The bytes of the name followed by a NUL, or an error where the name itself
    /// holds a NUL.
    pub fn into_bytes_with_nul(self) -> (r: Result<Vec<u8>, NewcError>)
        ensures
            match r {
                Ok(bytes) => !self@.contains(0u8) && bytes@ == self@.push(0u8),
                Err(e) => self@.contains(0u8) && e == NewcError::NameHasNul,
            },
    {
        let mut i: usize = 0;
        while i < self.name.len()
            invariant
                i <= self.name@.len(),
                forall|k: int| 0 <= k < i ==> self.name@[k] != 0u8,
            decreases self.name@.len() - i,
        {
            if self.name[i] == 0u8 {
                return Err(NewcError::NameHasNul);
            }
            i = i + 1;
        }
        let mut bytes = self.name;
        bytes.push(0u8);
        Ok(bytes)
    }
}

/// The data of a regular file, or the target of a symlink.
#[derive(Debug, PartialEq, Eq)]
pub struct EntryData {
    data: Vec<u8>,
}

impl View for EntryData {
    type V = Seq<u8>;

    closed spec fn view(&self) -> Seq<u8> {
        self.data@
    }
}

impl EntryData {
    /// Wraps `data`.
    pub fn new(data: Vec<u8>) -> (r: EntryData)
        ensures
            r@ == data@,
    {
        EntryData { data }
    }

    /// The bytes held.
    pub fn as_slice(&self) -> (r: &[u8])
        ensures
            r@ == self@,
    {
        self.data.as_slice()
    }
}

/// One member of an archive.
#[derive(Debug, PartialEq, Eq)]
pub struct Entry {
    /// Name of the entry (path)
    name: EntryName,
    /// Inode of the entry
    ino: u64,
    /// Mode of the entry
    mode: u32,
    /// User id of the entry
    uid: u64,
    /// Group id of the entry
    gid: u64,
    /// Number of links to the entry
    nlink: u64,
    /// Modification time of the entry
    mtime: u64,
    /// Device major number of the entry
    dev_major: u64,
    /// Device minor number of the entry
    dev_minor: u64,
    /// Rdev major number of the entry
    rdev_major: u64,
    /// Rdev minor number of the entry
    rdev_minor: u64,
    /// Data if the entry is a regular file or a symlink
    data: Option<EntryData>,
}

impl View for Entry {
    type V = EntryView;

    closed spec fn view(&self) -> EntryView {
        EntryView {
            name: self.name@,
            ino: self.ino,
            mode: self.mode,
            uid: self.uid,
            gid: self.gid,
            nlink: self.nlink,
            mtime: self.mtime,
            dev_major: self.dev_major,
            dev_minor: self.dev_minor,
            rdev_major: self.rdev_major,
            rdev_minor: self.rdev_minor,
            data: match self.data {
                Some(d) => Some(d@),
                None => None,
            },
        }
    }
}

/// An entry named `name`, every field zero, with the data `data`.
pub open spec fn blank_entry(name: Seq<u8>, data: Option<Seq<u8>>) -> EntryView {
    EntryView {
        name,
        ino: 0,
        mode: 0,
        uid: 0,
        gid: 0,
        nlink: 0,
        mtime: 0,
        dev_major: 0,
        dev_minor: 0,
        rdev_major: 0,
        rdev_minor: 0,
        data,
    }
}

impl Entry {
    /// An entry for `name` without data, every field zero.
    pub fn new(name: &str) -> (r: Entry)
        ensures
            r@ == blank_entry(strip_root(name.spec_bytes()), None),
    {
        Entry {
            name: EntryName::new(name),
            ino: 0,
            mode: 0,
            uid: 0,
            gid: 0,
            nlink: 0,
            mtime: 0,
            dev_major: 0,
            dev_minor: 0,
            rdev_major: 0,
            rdev_minor: 0,
            data: None,
        }
    }

    /// An entry for `name` that holds `data`, every field zero.
    pub fn with_data(name: &str, data: Vec<u8>) -> (r: Entry)
        ensures
            r@ == blank_entry(strip_root(name.spec_bytes()), Some(data@)),
    {
        Entry {
            name: EntryName::new(name),
            ino: 0,
            mode: 0,
            uid: 0,
            gid: 0,
            nlink: 0,
            mtime: 0,
            dev_major: 0,
            dev_minor: 0,
            rdev_major: 0,
            rdev_minor: 0,
            data: Some(EntryData::new(data)),
        }
    }

    /// Writes the entry to `buf` as `write` does, with `ino` for its inode number.
    fn encode(&self, ino: u64, buf: &mut Vec<u8>) -> (r: Result<(), NewcError>)
        ensures
            match r {
                Ok(()) => entry_error(EntryView { ino, ..self@ }) is None && final(buf)@
                    == written(old(buf)@, EntryView { ino, ..self@ }),
                Err(e) => entry_error(EntryView { ino, ..self@ }) == Some(e) && final(buf)@
                    == old(buf)@,
            },
    {
        let ghost view = EntryView { ino, ..self@ };
        let ghost start = buf@;
        let name = self.name.name.as_slice();
        let mut i: usize = 0;
        while i < name.len()
            invariant
                i <= name@.len(),
                name@ == view.name,
                view == (EntryView { ino, ..self@ }),
                buf@ == old(buf)@,
                forall|k: int| 0 <= k < i ==> name@[k] != 0u8,
            decreases name@.len() - i,
        {
            if name[i] == 0u8 {
                assert(view.name[i as int] == 0u8);
                return Err(NewcError::NameHasNul);
            }
            i = i + 1;
        }
        let file_size: usize = match &self.data {
            Some(d) => d.as_slice().len(),
            None => 0,
        };
        if ino > FIELD_MAX || self.uid > FIELD_MAX || self.gid > FIELD_MAX || self.nlink
            > FIELD_MAX || self.mtime > FIELD_MAX || self.dev_major > FIELD_MAX || self.dev_minor
            > FIELD_MAX || self.rdev_major > FIELD_MAX || self.rdev_minor > FIELD_MAX
            || file_size as u64 > FIELD_MAX || name.len() as u64 >= FIELD_MAX {
            return Err(NewcError::FieldTooLarge);
        }
        buf.push(0x30u8);
        buf.push(0x37u8);
        buf.push(0x30u8);
        buf.push(0x37u8);
        buf.push(0x30u8);
        buf.push(0x31u8);
        assert(buf@ == start + magic());
        write_hex(buf, ino as u32);
        write_hex(buf, self.mode);
        write_hex(buf, self.uid as u32);
        write_hex(buf, self.gid as u32);
        write_hex(buf, self.nlink as u32);
        write_hex(buf, self.mtime as u32);
        write_hex(buf, file_size as u32);
        write_hex(buf, self.dev_major as u32);
        write_hex(buf, self.dev_minor as u32);
        write_hex(buf, self.rdev_major as u32);
        write_hex(buf, self.rdev_minor as u32);
        write_hex(buf, (name.len() + 1) as u32);
        write_hex(buf, 0u32);
        assert(buf@ == start + header(view));
        buf.extend_from_slice(name);
        buf.push(0u8);
        assert(buf@ == start + header(view) + view.name.push(0u8));
        pad_buf(buf);
        match &self.data {
            Some(d) => {
                buf.extend_from_slice(d.as_slice());
                pad_buf(buf);
            },
            None => {},
        }
        Ok(())
    }

    /// Serializes the entry at the end of `buf`. An entry that cannot be written
    /// leaves `buf` as it was.
    pub fn write(self, buf: &mut Vec<u8>) -> (r: Result<(), NewcError>)
        ensures
            match r {
                Ok(()) => entry_error(self@) is None && final(buf)@ == written(old(buf)@, self@),
                Err(e) => entry_error(self@) == Some(e) && final(buf)@ == old(buf)@,
            },
    {
        assert(self@ == EntryView { ino: self.ino, ..self@ });
        self.encode(self.ino, buf)
    }
}

/// Mode of a directory entry: `S_IFDIR` with permissions 755.
pub const DIRECTORY_MODE: u32 = 0o040755;

/// Mode of a symlink entry: `S_IFLNK`.
pub const SYMLINK_MODE: u32 = 0o120000;

/// What the builder reads of a file's metadata.
#[derive(Debug, Clone, Copy, PartialEq, Eq)]
pub struct FileMetadata {
    /// File type and permissions, `st_mode`.
    pub mode: u32,
    /// Seconds since the epoch of the last modification, `st_mtime`.
    pub mtime: u64,
    /// Device id of a special file, `st_rdev`.
    pub rdev: u64,
}

/// Builds an entry step by step.
pub struct EntryBuilder {
    /// Entry being built
    entry: Entry,
}

impl View for EntryBuilder {
    type V = EntryView;

    closed spec fn view(&self) -> EntryView {
        self.entry@
    }
}

impl EntryBuilder {
    /// An entry for the directory `name`, with the mode of a directory.
    pub fn directory(name: &str) -> (r: EntryBuilder)
        ensures
            r@ == (EntryView {
                mode: DIRECTORY_MODE,
                ..blank_entry(strip_root(name.spec_bytes()), None)
            }),
    {
        let mut entry = Entry::new(name);
        entry.mode = DIRECTORY_MODE;
        EntryBuilder { entry }
    }

    /// An entry for the regular file `name` with the contents `data`.
    pub fn file(name: &str, data: Vec<u8>) -> (r: EntryBuilder)
        ensures
            r@ == blank_entry(strip_root(name.spec_bytes()), Some(data@)),
    {
        EntryBuilder { entry: Entry::with_data(name, data) }
    }

    /// An entry for the special file `name`.
    pub fn special_file(name: &str) -> (r: EntryBuilder)
        ensures
            r@ == blank_entry(strip_root(name.spec_bytes()), None),
    {
        EntryBuilder { entry: Entry::new(name) }
    }

    /// An entry for the symlink `name` that points to `path`: the target is the
    /// entry's data, and the mode that of a symlink.
    pub fn symlink(name: &str, path: &str) -> (r: EntryBuilder)
        ensures
            r@ == (EntryView {
                mode: SYMLINK_MODE,
                ..blank_entry(strip_root(name.spec_bytes()), Some(path.spec_bytes()))
            }),
    {
        let data = path.as_bytes_vec();
        let mut entry = Entry::with_data(name, data);
        entry.mode = SYMLINK_MODE;
        EntryBuilder { entry }
    }

    /// The entry that ends an archive.
    pub fn trailer() -> (r: EntryBuilder)
        ensures
            r@ == trailer_view(),
    {
        let mut name: Vec<u8> = Vec::new();
        name.push(0x54u8);
        name.push(0x52u8);
        name.push(0x41u8);
        name.push(0x49u8);
        name.push(0x4cu8);
        name.push(0x45u8);
        name.push(0x52u8);
        name.push(0x21u8);
        name.push(0x21u8);
        name.push(0x21u8);
        assert(name@ == trailer_name());
        EntryBuilder {
            entry: Entry {
                name: EntryName { name },
                ino: 0,
                mode: 0,
                uid: 0,
                gid: 0,
                nlink: 0,
                mtime: 0,
                dev_major: 0,
                dev_minor: 0,
                rdev_major: 0,
                rdev_minor: 0,
                data: None,
            },
        }
    }

    /// Takes mode, modification time and device numbers from `metadata`.
    pub fn with_metadata(self, metadata: &FileMetadata) -> (r: EntryBuilder)
        ensures
            r@ == (EntryView {
                mode: metadata.mode,
                mtime: metadata.mtime,
                rdev_major: spec_major(metadata.rdev),
                rdev_minor: spec_minor(metadata.rdev),
                ..self@
            }),
    {
        self.mode(metadata.mode).mtime(metadata.mtime).rdev_major(major(metadata.rdev)).rdev_minor(
            minor(metadata.rdev),
        )
    }

    /// Sets the mode of the entry.
    pub fn mode(self, mode: u32) -> (r: EntryBuilder)
        ensures
            r@ == (EntryView { mode, ..self@ }),
    {
        let mut entry = self.entry;
        entry.mode = mode;
        EntryBuilder { entry }
    }

    /// Sets the modification time of the entry.
    pub fn mtime(self, mtime: u64) -> (r: EntryBuilder)
        ensures
            r@ == (EntryView { mtime, ..self@ }),
    {
        let mut entry = self.entry;
        entry.mtime = mtime;
        EntryBuilder { entry }
    }

    /// Sets the major number of the device that the entry stands for.
    pub fn rdev_major(self, rdev_major: u64) -> (r: EntryBuilder)
        ensures
            r@ == (EntryView { rdev_major, ..self@ }),
    {
        let mut entry = self.entry;
        entry.rdev_major = rdev_major;
        EntryBuilder { entry }
    }

    /// Sets the minor number of the device that the entry stands for.
    pub fn rdev_minor(self, rdev_minor: u64) -> (r: EntryBuilder)
        ensures
            r@ == (EntryView { rdev_minor, ..self@ }),
    {
        let mut entry = self.entry;
        entry.rdev_minor = rdev_minor;
        EntryBuilder { entry }
    }

    /// The entry as built.
    pub fn build(self) -> (r: Entry)
        ensures
            r@ == self@,
    {
        self.entry
    }
}

/// A cpio archive: its entries in order.
#[derive(Debug, PartialEq, Eq)]
pub struct Archive {
    entries: Vec<Entry>,
}

impl View for Archive {
    type V = Seq<EntryView>;

    closed spec fn view(&self) -> Seq<EntryView> {
        self.entries@.map_values(|e: Entry| e@)
    }
}

impl Archive {
    /// An archive of `entries`, in their order.
    pub fn new(entries: Vec<Entry>) -> (r: Archive)
        ensures
            r@ == entries@.map_values(|e: Entry| e@),
    {
        Archive { entries }
    }

    /// Serializes the archive: every entry with the inode number of its place, then
    /// the trailer. Fails with the error of the first entry that cannot be written.
    pub fn into_bytes(self) -> (r: Result<Vec<u8>, NewcError>)
        ensures
            match r {
                Ok(bytes) => archive_error(self@) is None && bytes@ == archive_image(self@),
                Err(e) => archive_error(self@) == Some(e),
            },
    {
        let mut buf: Vec<u8> = Vec::new();
        let mut index: usize = 0;
        assert(self@.take(0) == Seq::<EntryView>::empty());
        while index < self.entries.len()
            invariant
                index <= self.entries@.len(),
                self@.len() == self.entries@.len(),
                archive_error(self@.take(index as int)) is None,
                buf@ == entries_image(self@.take(index as int)),
            decreases self.entries@.len() - index,
        {
            let ghost prefix = self@.take(index + 1);
            assert(prefix.drop_last() == self@.take(index as int));
            assert(prefix.last() == self.entries@[index as int]@);
            if index as u64 > FIELD_MAX - INO_OFFSET {
                proof {
                    lemma_archive_error_extends(self@, index + 1);
                }
                return Err(NewcError::FieldTooLarge);
            }
            let ino: u64 = INO_OFFSET + index as u64;
            assert(numbered(prefix.last(), index as int) == EntryView { ino, ..prefix.last() });
            match self.entries[index].encode(ino, &mut buf) {
                Ok(()) => {},
                Err(e) => {
                    proof {
                        lemma_archive_error_extends(self@, index + 1);
                    }
                    return Err(e);
                },
            }
            index = index + 1;
        }
        assert(self@.take(index as int) == self@);
        let trailer = EntryBuilder::trailer().build();
        assert(entry_error(trailer_view()) is None) by {
            assert(forall|k: int| 0 <= k < 10 ==> trailer_name()[k] != 0u8);
        }
        match trailer.write(&mut buf) {
            Ok(()) => Ok(buf),
            Err(e) => Err(e),
        }
    }
}

/// An error among the first `n` entries is the error of the whole archive.
proof fn lemma_archive_error_extends(entries: Seq<EntryView>, n: int)
    requires
        0 <= n <= entries.len(),
        archive_error(entries.take(n)) is Some,
    ensures
        archive_error(entries) == archive_error(entries.take(n)),
    decreases entries.len() - n,
{
    if n < entries.len() {
        assert(entries.take(n + 1).drop_last() == entries.take(n));
        lemma_archive_error_extends(entries, n + 1);
    } else {
        assert(entries.take(n) == entries);
    }
}

} // verus!
