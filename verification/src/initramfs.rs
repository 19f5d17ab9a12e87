//! The contents of an image: the entries of its archive, and which paths it holds.
//!
//! The builder adds directories, files and symlinks by their paths in the image. A path
//! is taken once: what is added under a path that the image holds already is passed
//! over, so that no two entries of the archive have one name.

use crate::newc::{
    archive_error, archive_image, blank_entry, strip_root, Archive, Entry, EntryBuilder,
    EntryView, FileMetadata, NewcError, spec_major, spec_minor, DIRECTORY_MODE, SYMLINK_MODE,
};
use crate::initramfs_type::InitramfsType;
use crate::path::{file_name, file_name_range, join, joined};
use crate::text::{
    chars_of, last_index_of, lemma_last_index_of, rfind_char, starts_with, substring, views,
};
use vstd::slice::*;
use vstd::hash_set::StringHashSet;
use vstd::prelude::*;
use vstd::string::*;
use vstd::utf8::*;

verus! {

/// The path `path` without the `/` characters that it starts with.
pub open spec fn normalized(path: Seq<char>) -> Seq<char>
    decreases path.len(),
{
    if path.len() > 0 && path[0] == '/' {
        normalized(path.drop_first())
    } else {
        path
    }
}

/// `name` without the `/` characters that it ends with.
pub open spec fn without_trailing(name: Seq<char>) -> Seq<char>
    decreases name.len(),
{
    if name.len() > 0 && name.last() == '/' {
        without_trailing(name.drop_last())
    } else {
        name
    }
}

/// The directory that holds `name`: what stands before the last `/` of `name`, the
/// empty name where it holds none. The empty name has no parent.
pub open spec fn parent_of(name: Seq<char>) -> Option<Seq<char>> {
    if name.len() == 0 {
        None
    } else if last_index_of(name, '/') < 0 {
        Some(Seq::empty())
    } else {
        Some(without_trailing(name.take(last_index_of(name, '/'))))
    }
}

/// What an `Initramfs` holds, as mathematical values.
pub struct InitramfsView {
    /// The entries of the archive, in order.
    pub entries: Seq<EntryView>,
    /// The normalized paths that the image holds.
    pub files: Set<Seq<char>>,
}

/// Whether the paths of `v` are the names of its entries, and no two entries have one
/// name.
pub open spec fn consistent(v: InitramfsView) -> bool {
    &&& forall|x: Seq<char>| #[trigger]
        v.files.contains(x) <==> exists|i: int|
            0 <= i < v.entries.len() && (#[trigger] v.entries[i]).name == encode_utf8(x)
    &&& forall|i: int, j: int|
        0 <= i < j < v.entries.len() ==> (#[trigger] v.entries[i]).name != (
        #[trigger] v.entries[j]).name
}

/// The image `v` with the entry `entry` behind its entries and `name` among its paths.
pub open spec fn added(v: InitramfsView, name: Seq<char>, entry: EntryView) -> InitramfsView {
    InitramfsView { entries: v.entries.push(entry), files: v.files.insert(name) }
}

/// The entry of the directory `name`.
pub open spec fn directory_entry(name: Seq<char>) -> EntryView {
    EntryView { mode: DIRECTORY_MODE, ..blank_entry(encode_utf8(name), None) }
}

/// The entry of the symlink `name` to `target`.
pub open spec fn symlink_entry(name: Seq<char>, target: Seq<char>) -> EntryView {
    EntryView { mode: SYMLINK_MODE, ..blank_entry(encode_utf8(name), Some(encode_utf8(target))) }
}

/// The entry of the file `name` with the contents `data` and the metadata `metadata`.
pub open spec fn file_entry(name: Seq<char>, data: Seq<u8>, metadata: FileMetadata) -> EntryView {
    EntryView {
        mode: metadata.mode,
        mtime: metadata.mtime,
        rdev_major: spec_major(metadata.rdev),
        rdev_minor: spec_minor(metadata.rdev),
        ..blank_entry(encode_utf8(name), Some(data))
    }
}

/// The image `v` with the directory `name` and the directories above it, as far as it
/// does not hold them: those above come first.
pub open spec fn with_directory(v: InitramfsView, name: Seq<char>) -> InitramfsView
    decreases name.len(),
{
    if v.files.contains(name) {
        v
    } else {
        let above = match parent_of(name) {
            Some(parent) => {
                proof {
                    lemma_parent_shorter(name);
                }
                with_directory(v, parent)
            },
            None => v,
        };
        added(above, name, directory_entry(name))
    }
}

/// The image `v` with what holds the path `name`: the directories above it.
pub open spec fn with_parents(v: InitramfsView, name: Seq<char>) -> InitramfsView {
    match parent_of(name) {
        Some(parent) => with_directory(v, parent),
        None => v,
    }
}

/// The image `v` with `entry` under the path `name` and the directories above it; `v`
/// itself where it holds the path already.
pub open spec fn with_entry(v: InitramfsView, name: Seq<char>, entry: EntryView) -> InitramfsView {
    if v.files.contains(name) {
        v
    } else {
        added(with_parents(v, name), name, entry)
    }
}

/// The directories of every image.
pub open spec fn root_directories() -> Seq<Seq<char>> {
    seq![
        "/dev"@,
        "/etc"@,
        "/new_root"@,
        "/proc"@,
        "/run"@,
        "/sys"@,
        "/usr"@,
        "/usr/bin"@,
        "/usr/lib"@,
    ]
}

/// The symlinks of every image, each with its target.
pub open spec fn root_symlinks() -> Seq<(Seq<char>, Seq<char>)> {
    seq![
        ("/bin"@, "usr/bin"@),
        ("/lib"@, "usr/lib"@),
        ("/lib64"@, "lib"@),
        ("/sbin"@, "usr/sbin"@),
        ("/usr/lib64"@, "lib"@),
        ("/usr/sbin"@, "bin"@),
    ]
}

/// The image `v` with `entry` under the path `name`, without the directories above it;
/// `v` itself where it holds the path already.
pub open spec fn with_plain(v: InitramfsView, name: Seq<char>, entry: EntryView) -> InitramfsView {
    if v.files.contains(name) {
        v
    } else {
        added(v, name, entry)
    }
}

/// The image `v` with the directories `dirs`, without the directories above them.
pub open spec fn with_directories(v: InitramfsView, dirs: Seq<Seq<char>>) -> InitramfsView
    decreases dirs.len(),
{
    if dirs.len() == 0 {
        v
    } else {
        with_plain(
            with_directories(v, dirs.drop_last()),
            normalized(dirs.last()),
            directory_entry(normalized(dirs.last())),
        )
    }
}

/// The image `v` with the symlinks `links`, without the directories above them.
pub open spec fn with_symlinks(v: InitramfsView, links: Seq<(Seq<char>, Seq<char>)>) -> InitramfsView
    decreases links.len(),
{
    if links.len() == 0 {
        v
    } else {
        let (path, target) = links.last();
        with_plain(
            with_symlinks(v, links.drop_last()),
            normalized(path),
            symlink_entry(normalized(path), target),
        )
    }
}

/// The image that every image starts from: the root directories, then the root
/// symlinks.
pub open spec fn basic_structure() -> InitramfsView {
    with_symlinks(
        with_directories(InitramfsView { entries: Seq::empty(), files: Set::empty() }, root_directories()),
        root_symlinks(),
    )
}

/// The parent of a name is shorter than the name.
pub proof fn lemma_parent_shorter(name: Seq<char>)
    ensures
        parent_of(name) matches Some(parent) ==> parent.len() < name.len(),
{
    if name.len() > 0 && last_index_of(name, '/') >= 0 {
        lemma_last_index_of(name, '/');
        lemma_without_trailing_len(name.take(last_index_of(name, '/')));
    }
}

/// Dropping what a name ends with does not make it longer.
proof fn lemma_without_trailing_len(name: Seq<char>)
    ensures
        without_trailing(name).len() <= name.len(),
    decreases name.len(),
{
    if name.len() > 0 && name.last() == '/' {
        lemma_without_trailing_len(name.drop_last());
    }
}

/// The first byte of the UTF-8 encoding of a character is that of `/` for `/` alone.
proof fn lemma_first_byte(c: char)
    ensures
        encode_scalar(c as u32).len() > 0,
        encode_scalar(c as u32)[0] == 0x2fu8 <==> c == '/',
        c == '/' ==> encode_scalar(c as u32) == seq![0x2fu8],
{
    char_is_scalar(c);
    let s = c as u32;
    if has_width_1_encoding(s) {
        assert(s <= 0x7f ==> ((s & 0x7F) as u8 == 0x2fu8 <==> s == 0x2fu32)) by (bit_vector);
    } else if has_width_2_encoding(s) {
        assert((0xC0u8 | ((s >> 6) & 0x1F) as u8) != 0x2fu8) by (bit_vector);
    } else if has_width_3_encoding(s) {
        assert((0xE0u8 | ((s >> 12) & 0x0F) as u8) != 0x2fu8) by (bit_vector);
    } else {
        assert((0xF0u8 | ((s >> 18) & 0x7) as u8) != 0x2fu8) by (bit_vector);
    }
}

/// The name of the entry for a path is the UTF-8 encoding of the normalized path.
pub proof fn lemma_entry_name(path: Seq<char>)
    ensures
        strip_root(encode_utf8(path)) == encode_utf8(normalized(path)),
    decreases path.len(),
{
    if path.len() > 0 {
        lemma_first_byte(path[0]);
        let bytes = encode_utf8(path);
        if path[0] == '/' {
            assert(bytes.drop_first() == encode_utf8(path.drop_first()));
            lemma_entry_name(path.drop_first());
        }
    }
}

/// Whether `name` is a normalized path: it does not start with `/`.
pub open spec fn is_normal(name: Seq<char>) -> bool {
    name.len() == 0 || name[0] != '/'
}

/// A normalized path is normal.
pub proof fn lemma_normalized_is_normal(path: Seq<char>)
    ensures
        is_normal(normalized(path)),
    decreases path.len(),
{
    if path.len() > 0 && path[0] == '/' {
        lemma_normalized_is_normal(path.drop_first());
    }
}

/// What is left of a normal name without what it ends with is normal.
proof fn lemma_without_trailing_normal(name: Seq<char>)
    requires
        is_normal(name),
    ensures
        is_normal(without_trailing(name)),
    decreases name.len(),
{
    if name.len() > 0 && name.last() == '/' {
        lemma_without_trailing_normal(name.drop_last());
    }
}

/// The directory that holds a normal name has a normal name.
pub proof fn lemma_parent_normal(name: Seq<char>)
    requires
        is_normal(name),
    ensures
        parent_of(name) matches Some(parent) ==> is_normal(parent),
{
    if name.len() > 0 && last_index_of(name, '/') >= 0 {
        lemma_last_index_of(name, '/');
        lemma_without_trailing_normal(name.take(last_index_of(name, '/')));
    }
}

/// Adding an entry under a new path keeps an image consistent.
proof fn lemma_added_consistent(v: InitramfsView, name: Seq<char>, entry: EntryView)
    requires
        consistent(v),
        !v.files.contains(name),
        entry.name == encode_utf8(name),
    ensures
        consistent(added(v, name, entry)),
{
    let w = added(v, name, entry);
    let n = v.entries.len() as int;
    assert(w.entries[n] == entry);
    assert forall|x: Seq<char>| #[trigger]
        w.files.contains(x) <==> exists|i: int|
            0 <= i < w.entries.len() && (#[trigger] w.entries[i]).name == encode_utf8(x) by {
        if w.files.contains(x) {
            if x == name {
                assert(w.entries[n].name == encode_utf8(x));
            } else {
                assert(v.files.contains(x));
                let i = choose|i: int|
                    0 <= i < v.entries.len() && (#[trigger] v.entries[i]).name == encode_utf8(x);
                assert(w.entries[i].name == encode_utf8(x));
            }
        }
        if exists|i: int|
            0 <= i < w.entries.len() && (#[trigger] w.entries[i]).name == encode_utf8(x) {
            let i = choose|i: int|
                0 <= i < w.entries.len() && (#[trigger] w.entries[i]).name == encode_utf8(x);
            if i < n {
                assert(v.entries[i].name == encode_utf8(x));
            } else {
                encode_utf8_decode_utf8(x);
                encode_utf8_decode_utf8(name);
            }
        }
    }
    assert forall|i: int, j: int| 0 <= i < j < w.entries.len() implies (#[trigger] w.entries[i]).name
        != (#[trigger] w.entries[j]).name by {
        if j == n {
            if w.entries[i].name == entry.name {
                assert(v.entries[i].name == encode_utf8(name));
                assert(v.files.contains(name));
            }
        } else {
            assert(v.entries[i].name != v.entries[j].name);
        }
    }
}

/// Adding a directory keeps an image consistent, keeps what it holds, and makes it hold
/// the directory.
pub proof fn lemma_with_directory(v: InitramfsView, name: Seq<char>)
    requires
        consistent(v),
    ensures
        consistent(with_directory(v, name)),
        with_directory(v, name).files.contains(name),
        v.files.subset_of(with_directory(v, name).files),
        v.entries.is_prefix_of(with_directory(v, name).entries),
        forall|x: Seq<char>| #[trigger]
            with_directory(v, name).files.contains(x) && !v.files.contains(x) ==> x.len()
                <= name.len(),
    decreases name.len(),
{
    if !v.files.contains(name) {
        let above = match parent_of(name) {
            Some(parent) => {
                lemma_parent_shorter(name);
                lemma_with_directory(v, parent);
                with_directory(v, parent)
            },
            None => v,
        };
        assert(!above.files.contains(name)) by {
            if above.files.contains(name) {
                lemma_parent_shorter(name);
            }
        }
        lemma_added_consistent(above, name, directory_entry(name));
    }
}

/// The paths in the image `path` is built from, without a leading `/`.
pub fn normalize(path: &str) -> (r: String)
    ensures
        r@ == normalized(path@),
{
    let chars = chars_of(path);
    let mut start: usize = 0;
    assert(path@.subrange(0, path@.len() as int) == path@);
    while start < chars.len() && chars[start] == '/'
        invariant
            start <= chars@.len(),
            chars@ == path@,
            normalized(path@) == normalized(path@.subrange(start as int, path@.len() as int)),
        decreases chars@.len() - start,
    {
        assert(path@.subrange(start as int, path@.len() as int).drop_first() == path@.subrange(
            start + 1,
            path@.len() as int,
        ));
        start = start + 1;
    }
    substring(path, start, chars.len())
}

/// The directory that holds the normalized path `name`.
pub fn parent(name: &str) -> (r: Option<String>)
    ensures
        match r {
            Some(p) => parent_of(name@) == Some(p@),
            None => parent_of(name@) is None,
        },
{
    let chars = chars_of(name);
    if chars.len() == 0 {
        return None;
    }
    match rfind_char(chars.as_slice(), '/') {
        None => Some(String::new()),
        Some(slash) => {
            let mut end: usize = slash;
            assert(name@.take(slash as int).take(end as int) == name@.take(slash as int));
            while end > 0 && chars[end - 1] == '/'
                invariant
                    end <= slash < chars@.len(),
                    chars@ == name@,
                    without_trailing(name@.take(slash as int)) == without_trailing(
                        name@.take(end as int),
                    ),
                decreases end,
            {
                assert(name@.take(end as int).drop_last() == name@.take(end - 1));
                end = end - 1;
            }
            assert(name@.take(end as int) == name@.subrange(0, end as int));
            Some(substring(name, 0, end))
        },
    }
}

/// An image in the making.
pub struct Initramfs {
    entries: Vec<Entry>,
    files: StringHashSet,
}

impl View for Initramfs {
    type V = InitramfsView;

    closed spec fn view(&self) -> InitramfsView {
        InitramfsView { entries: self.entries@.map_values(|e: Entry| e@), files: self.files@ }
    }
}

impl Initramfs {
    /// The paths of the image are the names of its entries, and no two entries have one
    /// name.
    #[verifier::type_invariant]
    spec fn names_are_unique(self) -> bool {
        consistent(self@)
    }

    /// The number of entries of the image.
    pub fn len(&self) -> (r: usize)
        ensures
            r == self@.entries.len(),
            consistent(self@),
    {
        proof {
            use_type_invariant(self);
        }
        self.entries.len()
    }

    /// Puts `entry` behind the entries and `name` among the paths.
    fn add_entry(&mut self, name: String, entry: Entry)
        requires
            !old(self)@.files.contains(name@),
            entry@.name == encode_utf8(name@),
        ensures
            final(self)@ == added(old(self)@, name@, entry@),
    {
        proof {
            use_type_invariant(&*self);
            lemma_added_consistent(self@, name@, entry@);
        }
        let mut taken = Initramfs { entries: Vec::new(), files: StringHashSet::new() };
        assert(taken@.entries == Seq::<EntryView>::empty());
        core::mem::swap(self, &mut taken);
        let Initramfs { entries, files } = taken;
        let mut entries = entries;
        let mut files = files;
        files.insert(name);
        entries.push(entry);
        assert(entries@.map_values(|e: Entry| e@) == old(self)@.entries.push(entry@));
        *self = Initramfs { entries, files };
    }

    /// The image that every image starts from: the root directories, then the root
    /// symlinks.
    pub fn new_basic_structure() -> (r: Initramfs)
        ensures
            r@ == basic_structure(),
    {
        let mut image = Initramfs { entries: Vec::new(), files: StringHashSet::new() };
        assert(image@.entries == Seq::<EntryView>::empty());
        image.add_root_directory("/dev");
        image.add_root_directory("/etc");
        image.add_root_directory("/new_root");
        image.add_root_directory("/proc");
        image.add_root_directory("/run");
        image.add_root_directory("/sys");
        image.add_root_directory("/usr");
        image.add_root_directory("/usr/bin");
        image.add_root_directory("/usr/lib");
        proof {
            reveal_with_fuel(with_directories, 10);
            let start = InitramfsView { entries: Seq::empty(), files: Set::empty() };
            let dirs = root_directories();
            assert(dirs.drop_last().drop_last().drop_last().drop_last().drop_last().drop_last().drop_last().drop_last().drop_last()
                == Seq::<Seq<char>>::empty());
            assert(image@ == with_directories(start, dirs));
        }
        image.add_root_symlink("/bin", "usr/bin");
        image.add_root_symlink("/lib", "usr/lib");
        image.add_root_symlink("/lib64", "lib");
        image.add_root_symlink("/sbin", "usr/sbin");
        image.add_root_symlink("/usr/lib64", "lib");
        image.add_root_symlink("/usr/sbin", "bin");
        proof {
            reveal_with_fuel(with_symlinks, 7);
            let links = root_symlinks();
            assert(links.drop_last().drop_last().drop_last().drop_last().drop_last().drop_last()
                == Seq::<(Seq<char>, Seq<char>)>::empty());
        }
        image
    }

    /// Adds the directory `dir` of the basic structure, without the directories above
    /// it.
    fn add_root_directory(&mut self, dir: &str)
        ensures
            final(self)@ == with_plain(
                old(self)@,
                normalized(dir@),
                directory_entry(normalized(dir@)),
            ),
    {
        let name = normalize(dir);
        if self.files.contains(name.as_str()) {
            return ;
        }
        let entry = EntryBuilder::directory(dir).build();
        proof {
            lemma_entry_name(dir@);
        }
        self.add_entry(name, entry);
    }

    /// Adds the symlink `path` of the basic structure that points to `target`, without
    /// the directories above it.
    fn add_root_symlink(&mut self, path: &str, target: &str)
        ensures
            final(self)@ == with_plain(
                old(self)@,
                normalized(path@),
                symlink_entry(normalized(path@), target@),
            ),
    {
        let name = normalize(path);
        if self.files.contains(name.as_str()) {
            return ;
        }
        let entry = EntryBuilder::symlink(path, target).build();
        proof {
            lemma_entry_name(path@);
        }
        self.add_entry(name, entry);
    }

    /// Whether the image holds the path `path`.
    pub fn contains(&self, path: &str) -> (r: bool)
        ensures
            r == self@.files.contains(normalized(path@)),
    {
        let name = normalize(path);
        self.files.contains(name.as_str())
    }

    /// Adds the directory with the normalized name `name` and the directories above it,
    /// as far as the image does not hold them.
    fn add_directory_named(&mut self, name: String)
        requires
            is_normal(name@),
        ensures
            final(self)@ == with_directory(old(self)@, name@),
        decreases name@.len(),
    {
        proof {
            use_type_invariant(&*self);
            lemma_with_directory(self@, name@);
        }
        if self.files.contains(name.as_str()) {
            return ;
        }
        match parent(name.as_str()) {
            Some(above) => {
                proof {
                    lemma_parent_shorter(name@);
                    lemma_parent_normal(name@);
                    lemma_with_directory(self@, above@);
                }
                self.add_directory_named(above);
            },
            None => {},
        }
        let entry = EntryBuilder::directory(name.as_str()).build();
        proof {
            lemma_entry_name(name@);
        }
        self.add_entry(name, entry);
    }

    /// Adds the directory `dir` and the directories above it, as far as the image does
    /// not hold them.
    pub fn add_directory(&mut self, dir: &str)
        ensures
            final(self)@ == with_directory(old(self)@, normalized(dir@)),
    {
        proof {
            lemma_normalized_is_normal(dir@);
        }
        self.add_directory_named(normalize(dir));
    }

    /// Adds the symlink `path` that points to `target`, with the directories above it.
    /// Returns whether the path was new: a path that the image holds stays as it is.
    pub fn add_symlink(&mut self, path: &str, target: &str) -> (r: bool)
        ensures
            r == !old(self)@.files.contains(normalized(path@)),
            final(self)@ == with_entry(
                old(self)@,
                normalized(path@),
                symlink_entry(normalized(path@), target@),
            ),
    {
        let name = normalize(path);
        if self.files.contains(name.as_str()) {
            return false;
        }
        proof {
            lemma_normalized_is_normal(path@);
        }
        self.add_parents(name.as_str());
        let entry = EntryBuilder::symlink(path, target).build();
        proof {
            lemma_entry_name(path@);
        }
        self.add_entry(name, entry);
        true
    }

    /// Adds the file `path` with the contents `data` and the metadata `metadata`, with
    /// the directories above it. Returns whether the path was new: a path that the image
    /// holds stays as it is.
    pub fn add_file_with_path(&mut self, data: Vec<u8>, metadata: &FileMetadata, path: &str) -> (r:
        bool)
        ensures
            r == !old(self)@.files.contains(normalized(path@)),
            final(self)@ == with_entry(
                old(self)@,
                normalized(path@),
                file_entry(normalized(path@), data@, *metadata),
            ),
    {
        let name = normalize(path);
        if self.files.contains(name.as_str()) {
            return false;
        }
        proof {
            lemma_normalized_is_normal(path@);
        }
        self.add_parents(name.as_str());
        let entry = EntryBuilder::file(path, data).with_metadata(metadata).build();
        proof {
            lemma_entry_name(path@);
        }
        self.add_entry(name, entry);
        true
    }

    /// Adds the directories above the normalized path `name`.
    fn add_parents(&mut self, name: &str)
        requires
            is_normal(name@),
            !old(self)@.files.contains(name@),
        ensures
            final(self)@ == with_parents(old(self)@, name@),
            !final(self)@.files.contains(name@),
    {
        match parent(name) {
            Some(above) => {
                proof {
                    lemma_parent_shorter(name@);
                    lemma_parent_normal(name@);
                    use_type_invariant(&*self);
                    lemma_with_directory(self@, above@);
                }
                self.add_directory_named(above);
            },
            None => {},
        }
    }

    /// The image as a cpio archive.
    pub fn into_bytes(self) -> (r: Result<Vec<u8>, NewcError>)
        ensures
            consistent(self@),
            match r {
                Ok(bytes) => archive_error(self@.entries) is None && bytes@ == archive_image(
                    self@.entries,
                ),
                Err(e) => archive_error(self@.entries) == Some(e),
            },
    {
        proof {
            use_type_invariant(&self);
        }
        Archive::new(self.entries).into_bytes()
    }
}

/// Where the shared library `lib` goes in the image: under its file name in
/// `/usr/lib`. A path without a file name names no library.
pub open spec fn library_place(lib: Seq<char>) -> Option<Seq<char>> {
    match file_name(lib) {
        Some(name) => Some("/usr/lib/"@ + name),
        None => None,
    }
}

/// Where the shared library `lib` goes in the image.
pub fn library_destination(lib: &str) -> (r: Option<String>)
    ensures
        match r {
            Some(path) => library_place(lib@) == Some(path@),
            None => library_place(lib@) is None,
        },
{
    let chars = chars_of(lib);
    match file_name_range(chars.as_slice()) {
        Some((from, to)) => {
            let name = substring(lib, from, to);
            Some(String::from_str("/usr/lib/").concat(name.as_str()))
        },
        None => None,
    }
}

/// Where the file `file` of the kernel's module directory `kroot` goes in the image:
/// below `/lib/modules/`, under its path from the directory that holds `kroot`. A file
/// from elsewhere keeps its path.
pub open spec fn module_place(kroot: Seq<char>, file: Seq<char>) -> Seq<char> {
    let base = kroot.take(last_index_of(kroot, '/') + 1);
    if base.is_prefix_of(file) {
        "/lib/modules/"@ + file.skip(base.len() as int)
    } else {
        file
    }
}

/// Where the file `file` of the kernel's module directory `kroot` goes in the image.
pub fn module_destination(kroot: &str, file: &str) -> (r: String)
    ensures
        r@ == module_place(kroot@, file@),
{
    let root = chars_of(kroot);
    let chars = chars_of(file);
    let cut: usize = match rfind_char(root.as_slice(), '/') {
        Some(slash) => slash + 1,
        None => 0,
    };
    let base = slice_subrange(root.as_slice(), 0, cut);
    assert(base@ == kroot@.take(cut as int));
    if starts_with(chars.as_slice(), base) {
        let rest = substring(file, cut, chars.len());
        String::from_str("/lib/modules/").concat(rest.as_str())
    } else {
        String::from_str(file)
    }
}

/// Something that an image is to hold.
#[derive(Debug, PartialEq, Eq)]
pub enum ImageItem {
    /// The program at `source` on this machine, at `destination` in the image, with
    /// the shared libraries that it needs.
    Program { source: String, destination: String },
    /// The file at `source` on this machine, at `destination` in the image.
    File { source: String, destination: String },
    /// A file without contents, with the metadata of the file at this path.
    EmptyFile(String),
    /// The file at this path, at the same path in the image, if this machine has it.
    OptionalFile(String),
}

/// What an `ImageItem` holds, as mathematical values.
pub enum ImageItemView {
    Program { source: Seq<char>, destination: Seq<char> },
    File { source: Seq<char>, destination: Seq<char> },
    EmptyFile(Seq<char>),
    OptionalFile(Seq<char>),
}

impl View for ImageItem {
    type V = ImageItemView;

    open spec fn view(&self) -> ImageItemView {
        match self {
            ImageItem::Program { source, destination } => ImageItemView::Program {
                source: source@,
                destination: destination@,
            },
            ImageItem::File { source, destination } => ImageItemView::File {
                source: source@,
                destination: destination@,
            },
            ImageItem::EmptyFile(path) => ImageItemView::EmptyFile(path@),
            ImageItem::OptionalFile(path) => ImageItemView::OptionalFile(path@),
        }
    }
}

/// The views of `items`, in order.
pub open spec fn item_views(items: Seq<ImageItem>) -> Seq<ImageItemView> {
    items.map_values(|i: ImageItem| i@)
}

/// The program at `path`, at the same path in the image.
pub open spec fn program(path: Seq<char>) -> ImageItemView {
    ImageItemView::Program { source: path, destination: path }
}

/// The file `file` of the kernel's module directory `kroot`, at its place in the image.
pub open spec fn module_item(kroot: Seq<char>, file: Seq<char>) -> ImageItemView {
    ImageItemView::File { source: file, destination: module_place(kroot, file) }
}

/// What every image holds before its kernel modules: the boot agent as `/init`, the
/// programs that it runs, the configuration of the dynamic linker, and the two files
/// of the module index.
pub open spec fn fixed_items(kroot: Seq<char>, initrz: Seq<char>) -> Seq<ImageItemView> {
    seq![
        ImageItemView::Program { source: initrz, destination: "/init"@ },
        program("/sbin/vgchange"@),
        program("/sbin/vgmknodes"@),
        program("/bin/busybox"@),
        ImageItemView::EmptyFile("/etc/ld.so.conf"@),
        module_item(kroot, joined(kroot, "modules.dep"@)),
        module_item(kroot, joined(kroot, "modules.alias"@)),
    ]
}

/// What an image of the profile `kind` holds besides its basic structure, in the order
/// in which it is added: the fixed items, the kernel modules `modules`, and for a host
/// image the crypttab of this machine if it has one.
pub open spec fn image_items(
    kind: InitramfsType,
    kroot: Seq<char>,
    initrz: Seq<char>,
    modules: Seq<Seq<char>>,
) -> Seq<ImageItemView> {
    fixed_items(kroot, initrz) + modules.map_values(|file: Seq<char>| module_item(kroot, file))
        + match kind {
        InitramfsType::Host => seq![ImageItemView::OptionalFile("/etc/crypttab.initramfs"@)],
        InitramfsType::General => Seq::empty(),
    }
}

/// The file `file` of the kernel's module directory `kroot`, at its place in the image.
fn module_file(kroot: &str, file: &str) -> (r: ImageItem)
    ensures
        r@ == module_item(kroot@, file@),
{
    ImageItem::File { source: String::from_str(file), destination: module_destination(kroot, file) }
}

/// The program at `path`, at the same path in the image.
fn program_at(path: &str) -> (r: ImageItem)
    ensures
        r@ == program(path@),
{
    ImageItem::Program { source: String::from_str(path), destination: String::from_str(path) }
}

/// What an image of the profile `initramfs_type` holds besides its basic structure.
/// `kroot` is the kernel's module directory, `initrz` the boot agent on this machine,
/// and `modules` are the files of the kernel modules that the image takes.
pub fn image_plan(initramfs_type: InitramfsType, kroot: &str, initrz: &str, modules: &Vec<String>) -> (r:
    Vec<ImageItem>)
    ensures
        item_views(r@) == image_items(initramfs_type, kroot@, initrz@, views(modules@)),
{
    let mut items: Vec<ImageItem> = Vec::new();
    items.push(
        ImageItem::Program { source: String::from_str(initrz), destination: String::from_str("/init") },
    );
    items.push(program_at("/sbin/vgchange"));
    items.push(program_at("/sbin/vgmknodes"));
    items.push(program_at("/bin/busybox"));
    items.push(ImageItem::EmptyFile(String::from_str("/etc/ld.so.conf")));
    let dep = join(kroot, "modules.dep");
    items.push(module_file(kroot, dep.as_str()));
    let alias = join(kroot, "modules.alias");
    items.push(module_file(kroot, alias.as_str()));
    assert(item_views(items@) == fixed_items(kroot@, initrz@));
    let ghost files = views(modules@);
    let ghost fixed = fixed_items(kroot@, initrz@);
    let mut i: usize = 0;
    assert(files.take(0).map_values(|file: Seq<char>| module_item(kroot@, file)) == Seq::<
        ImageItemView,
    >::empty());
    while i < modules.len()
        invariant
            i <= modules@.len(),
            files == views(modules@),
            fixed == fixed_items(kroot@, initrz@),
            item_views(items@) == fixed + files.take(i as int).map_values(
                |file: Seq<char>| module_item(kroot@, file),
            ),
        decreases modules@.len() - i,
    {
        let item = module_file(kroot, modules[i].as_str());
        let ghost before = item_views(items@);
        items.push(item);
        assert(item_views(items@) == before.push(item@));
        assert(files.take(i + 1).map_values(|file: Seq<char>| module_item(kroot@, file))
            == files.take(i as int).map_values(|file: Seq<char>| module_item(kroot@, file)).push(
            item@,
        ));
        i = i + 1;
    }
    assert(files.take(i as int) == files);
    match initramfs_type {
        InitramfsType::Host => {
            let ghost before = item_views(items@);
            let item = ImageItem::OptionalFile(String::from_str("/etc/crypttab.initramfs"));
            items.push(item);
            assert(item_views(items@) == before + seq![item@]);
        },
        InitramfsType::General => {
            assert(item_views(items@) + Seq::<ImageItemView>::empty() == item_views(items@));
        },
    }
    items
}

/// The paths at which the boot agent is looked for on this machine, in this order:
/// the path `env` that the environment gives, `target/release/initrz` where it gives
/// none, and then `/sbin/initrz`.
pub fn initrz_candidates(env: Option<&str>) -> (r: Vec<String>)
    ensures
        views(r@) == seq![
            match env {
                Some(path) => path@,
                None => "target/release/initrz"@,
            },
            "/sbin/initrz"@,
        ],
{
    let first = match env {
        Some(path) => String::from_str(path),
        None => String::from_str("target/release/initrz"),
    };
    let mut out: Vec<String> = Vec::new();
    out.push(first);
    out.push(String::from_str("/sbin/initrz"));
    assert(views(out@) == seq![first@, "/sbin/initrz"@]);
    out
}

/// Of the shared libraries `libraries` that a program of the image asks for, what is to
/// be read next: each library that has a file name and whose place the image does not
/// hold yet, as a program for its place, in the order of `libraries`.
pub open spec fn missing_libraries(v: InitramfsView, libraries: Seq<Seq<char>>) -> Seq<
    ImageItemView,
>
    decreases libraries.len(),
{
    if libraries.len() == 0 {
        Seq::empty()
    } else {
        let before = missing_libraries(v, libraries.drop_last());
        let lib = libraries.last();
        match library_place(lib) {
            Some(place) => if v.files.contains(normalized(place)) {
                before
            } else {
                before.push(ImageItemView::Program { source: lib, destination: place })
            },
            None => before,
        }
    }
}

/// A file that was read for an image: its place in the image, its contents and its
/// metadata.
pub struct ReadFile {
    pub destination: String,
    pub data: Vec<u8>,
    pub metadata: FileMetadata,
}

/// What a `ReadFile` holds, as mathematical values.
pub struct ReadFileView {
    pub destination: Seq<char>,
    pub data: Seq<u8>,
    pub metadata: FileMetadata,
}

impl View for ReadFile {
    type V = ReadFileView;

    open spec fn view(&self) -> ReadFileView {
        ReadFileView { destination: self.destination@, data: self.data@, metadata: self.metadata }
    }
}

/// The image `v` with the files `files` added one after the other.
pub open spec fn with_files(v: InitramfsView, files: Seq<ReadFileView>) -> InitramfsView
    decreases files.len(),
{
    if files.len() == 0 {
        v
    } else {
        let f = files.last();
        with_entry(
            with_files(v, files.drop_last()),
            normalized(f.destination),
            file_entry(normalized(f.destination), f.data, f.metadata),
        )
    }
}

/// The archive of an image is determined by the files that were read for it, with
/// their contents and metadata, in the order in which they were added: two builds that
/// read the same produce the same bytes, or fail in the same way.
pub proof fn lemma_image_is_determined(a: Seq<ReadFileView>, b: Seq<ReadFileView>)
    requires
        a.len() == b.len(),
        forall|i: int|
            0 <= i < a.len() ==> (#[trigger] a[i]).destination == b[i].destination && a[i].data
                == b[i].data && a[i].metadata == b[i].metadata,
    ensures
        with_files(basic_structure(), a) == with_files(basic_structure(), b),
        archive_image(with_files(basic_structure(), a).entries) == archive_image(
            with_files(basic_structure(), b).entries,
        ),
        archive_error(with_files(basic_structure(), a).entries) == archive_error(
            with_files(basic_structure(), b).entries,
        ),
{
    assert(a =~= b);
}

impl Initramfs {
    /// Of the shared libraries `libraries` that a program of the image asks for, what
    /// is to be read next.
    pub fn next_libraries(&self, libraries: &Vec<String>) -> (r: Vec<ImageItem>)
        ensures
            item_views(r@) == missing_libraries(self@, views(libraries@)),
    {
        let ghost all = views(libraries@);
        let mut out: Vec<ImageItem> = Vec::new();
        let mut i: usize = 0;
        assert(all.take(0) == Seq::<Seq<char>>::empty());
        assert(item_views(out@) == Seq::<ImageItemView>::empty());
        while i < libraries.len()
            invariant
                i <= libraries@.len(),
                all == views(libraries@),
                item_views(out@) == missing_libraries(self@, all.take(i as int)),
            decreases libraries@.len() - i,
        {
            assert(all.take(i + 1).drop_last() == all.take(i as int));
            assert(all.take(i + 1).last() == libraries@[i as int]@);
            match library_destination(libraries[i].as_str()) {
                Some(place) => if !self.contains(place.as_str()) {
                    let item = ImageItem::Program {
                        source: libraries[i].clone(),
                        destination: place,
                    };
                    let ghost before = item_views(out@);
                    out.push(item);
                    assert(item_views(out@) == before.push(item@));
                },
                None => {},
            }
            i = i + 1;
        }
        assert(all.take(i as int) == all);
        out
    }

    /// Adds the files `files` one after the other, each as `add_file_with_path` does.
    pub fn add_files(&mut self, files: &Vec<ReadFile>)
        ensures
            final(self)@ == with_files(old(self)@, files@.map_values(|f: ReadFile| f@)),
    {
        let ghost all = files@.map_values(|f: ReadFile| f@);
        let mut i: usize = 0;
        assert(all.take(0) == Seq::<ReadFileView>::empty());
        while i < files.len()
            invariant
                i <= files@.len(),
                all == files@.map_values(|f: ReadFile| f@),
                self@ == with_files(old(self)@, all.take(i as int)),
            decreases files@.len() - i,
        {
            assert(all.take(i + 1).drop_last() == all.take(i as int));
            assert(all.take(i + 1).last() == files@[i as int]@);
            let file = &files[i];
            let data = slice_to_vec(file.data.as_slice());
            self.add_file_with_path(data, &file.metadata, file.destination.as_str());
            i = i + 1;
        }
        assert(all.take(i as int) == all);
    }
}

} // verus!
