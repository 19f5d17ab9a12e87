//! The shared libraries that a program asks for.
//!
//! An ELF file names the libraries it needs in its dynamic segment: each `DT_NEEDED`
//! entry is the offset of a name in the string table that `DT_STRTAB` and `DT_STRSZ`
//! describe.

use crate::error::Error;
use crate::text::{index_of, views};
use object::elf::{FileHeader32, FileHeader64};
use object::read::elf::{Dyn, FileHeader, ProgramHeader};
use object::read::StringTable;
use object::{Endianness, FileKind};
use vstd::prelude::*;
use vstd::slice::*;
use vstd::string::*;

verus! {

/// The two classes of ELF files.
#[derive(Debug, Clone, Copy, PartialEq, Eq, Structural)]
pub enum ElfClass {
    Elf32,
    Elf64,
}

/// The tag of a dynamic entry that names a needed library.
pub const DT_NEEDED: i64 = 1;

/// The tag of the dynamic entry that holds the address of the string table.
pub const DT_STRTAB: i64 = 5;

/// The tag of the dynamic entry that holds the size of the string table.
pub const DT_STRSZ: i64 = 10;

/// An entry of a dynamic segment.
#[derive(Debug, Clone, Copy, PartialEq, Eq, Structural)]
pub struct DynEntry {
    pub tag: i64,
    pub value: u64,
}

/// A segment of an ELF file, as its program header describes it.
#[derive(Debug, PartialEq, Eq)]
pub struct Segment {
    /// The address of the segment in memory.
    pub vaddr: u64,
    /// Where the segment starts in the file.
    pub offset: u64,
    /// The size of the segment in the file.
    pub filesz: u64,
    /// The entries of the segment, where it is the dynamic segment.
    pub dynamic: Option<Vec<DynEntry>>,
}

/// What a `Segment` holds, as mathematical values.
pub struct SegmentView {
    pub vaddr: u64,
    pub offset: u64,
    pub filesz: u64,
    pub dynamic: Option<Seq<DynEntry>>,
}

impl View for Segment {
    type V = SegmentView;

    open spec fn view(&self) -> SegmentView {
        SegmentView {
            vaddr: self.vaddr,
            offset: self.offset,
            filesz: self.filesz,
            dynamic: match self.dynamic {
                Some(entries) => Some(entries@),
                None => None,
            },
        }
    }
}

/// The views of `segments`, in order.
pub open spec fn segment_views(segments: Seq<Segment>) -> Seq<SegmentView> {
    segments.map_values(|s: Segment| s@)
}

/// The class of the ELF file `bytes`: a file of sixteen bytes or more that starts with
/// the magic number of ELF has the class that its fifth byte gives.
pub open spec fn class_of(bytes: Seq<u8>) -> Option<ElfClass> {
    if bytes.len() >= 16 && bytes[0] == 0x7f && bytes[1] == 0x45 && bytes[2] == 0x4c && bytes[3]
        == 0x46 {
        if bytes[4] == 1 {
            Some(ElfClass::Elf32)
        } else if bytes[4] == 2 {
            Some(ElfClass::Elf64)
        } else {
            None
        }
    } else {
        None
    }
}

/// The segments that the `object` crate reads from the program headers of the 32-bit
/// ELF file `bytes`, each dynamic segment with its entries; `None` where the file is
/// malformed.
pub uninterp spec fn elf32_segments(bytes: Seq<u8>) -> Option<Seq<SegmentView>>;

/// The segments that the `object` crate reads from the program headers of the 64-bit
/// ELF file `bytes`, each dynamic segment with its entries; `None` where the file is
/// malformed.
pub uninterp spec fn elf64_segments(bytes: Seq<u8>) -> Option<Seq<SegmentView>>;

/// `object::FileKind::parse`: which class of ELF file `data` is, if it is one.
#[verifier::external_body]
fn elf_class(data: &[u8]) -> (r: Option<ElfClass>)
    ensures
        r == class_of(data@),
{
    match FileKind::parse(data) {
        Ok(FileKind::Elf32) => Some(ElfClass::Elf32),
        Ok(FileKind::Elf64) => Some(ElfClass::Elf64),
        _ => None,
    }
}

/// `object::read::elf::FileHeader::program_headers` of a 32-bit file, with
/// `ProgramHeader::dynamic` for each header.
#[verifier::external_body]
fn segments32(data: &[u8]) -> (r: Option<Vec<Segment>>)
    ensures
        match r {
            Some(segments) => elf32_segments(data@) == Some(segment_views(segments@)),
            None => elf32_segments(data@) is None,
        },
{
    let elf = FileHeader32::<Endianness>::parse(data).ok()?;
    let e = elf.endian().ok()?;
    let mut out = Vec::new();
    for h in elf.program_headers(e, data).ok()? {
        let dynamic = h.dynamic(e, data).ok()?.map(
            |d| d.iter().map(|x| DynEntry { tag: x.d_tag(e).0, value: x.d_val(e).into() }).collect(),
        );
        let (offset, filesz) = h.file_range(e);
        out.push(Segment { vaddr: h.p_vaddr(e).into(), offset, filesz, dynamic });
    }
    Some(out)
}

/// `object::read::elf::FileHeader::program_headers` of a 64-bit file, with
/// `ProgramHeader::dynamic` for each header.
#[verifier::external_body]
fn segments64(data: &[u8]) -> (r: Option<Vec<Segment>>)
    ensures
        match r {
            Some(segments) => elf64_segments(data@) == Some(segment_views(segments@)),
            None => elf64_segments(data@) is None,
        },
{
    let elf = FileHeader64::<Endianness>::parse(data).ok()?;
    let e = elf.endian().ok()?;
    let mut out = Vec::new();
    for h in elf.program_headers(e, data).ok()? {
        let dynamic = h.dynamic(e, data).ok()?.map(
            |d| d.iter().map(|x| DynEntry { tag: x.d_tag(e).0, value: x.d_val(e).into() }).collect(),
        );
        let (offset, filesz) = h.file_range(e);
        out.push(Segment { vaddr: h.p_vaddr(e).into(), offset, filesz, dynamic });
    }
    Some(out)
}

/// The string that starts at `offset` in the string table that the first `end` bytes
/// of `table` are: the bytes up to the next NUL. There is none where the offset lies
/// behind the end, the end behind the table, or no NUL follows.
pub open spec fn string_in(table: Seq<u8>, end: int, offset: int) -> Option<Seq<u8>> {
    if offset > end || end > table.len() {
        None
    } else {
        let tail = table.subrange(offset, end);
        if index_of(tail, 0u8) >= tail.len() {
            None
        } else {
            Some(tail.take(index_of(tail, 0u8)))
        }
    }
}

/// `object::read::StringTable::get`, for the table that the first `end` bytes of
/// `table` are.
#[verifier::external_body]
fn string_at(table: &[u8], end: u64, offset: u32) -> (r: Option<&[u8]>)
    ensures
        match r {
            Some(s) => string_in(table@, end as int, offset as int) == Some(s@),
            None => string_in(table@, end as int, offset as int) is None,
        },
{
    StringTable::new(table, 0, end).get(offset).ok()
}

/// What the dynamic entries of a file say about its needed libraries.
#[derive(Debug, PartialEq, Eq)]
pub struct DynamicInfo {
    /// The address of the string table.
    pub strtab: u64,
    /// The size of the string table.
    pub strsz: u64,
    /// The offsets of the names of the needed libraries in the string table.
    pub needed: Vec<u64>,
}

/// What a `DynamicInfo` holds, as mathematical values.
pub struct DynamicInfoView {
    pub strtab: u64,
    pub strsz: u64,
    pub needed: Seq<u64>,
}

impl View for DynamicInfo {
    type V = DynamicInfoView;

    open spec fn view(&self) -> DynamicInfoView {
        DynamicInfoView { strtab: self.strtab, strsz: self.strsz, needed: self.needed@ }
    }
}

/// `info`, with what the entry `entry` adds: the last address and the last size of the
/// string table stay, and every needed library is kept, in order.
pub open spec fn with_entry(info: DynamicInfoView, entry: DynEntry) -> DynamicInfoView {
    if entry.tag == DT_STRTAB {
        DynamicInfoView { strtab: entry.value, ..info }
    } else if entry.tag == DT_STRSZ {
        DynamicInfoView { strsz: entry.value, ..info }
    } else if entry.tag == DT_NEEDED {
        DynamicInfoView { needed: info.needed.push(entry.value), ..info }
    } else {
        info
    }
}

/// `info`, with what the entries `entries` add, first to last.
pub open spec fn with_entries(info: DynamicInfoView, entries: Seq<DynEntry>) -> DynamicInfoView
    decreases entries.len(),
{
    if entries.len() == 0 {
        info
    } else {
        with_entry(with_entries(info, entries.drop_last()), entries.last())
    }
}

/// What the dynamic segments among `segments` say, first to last.
pub open spec fn info_of(segments: Seq<SegmentView>) -> DynamicInfoView
    decreases segments.len(),
{
    if segments.len() == 0 {
        DynamicInfoView { strtab: 0, strsz: 0, needed: Seq::empty() }
    } else {
        let before = info_of(segments.drop_last());
        match segments.last().dynamic {
            Some(entries) => with_entries(before, entries),
            None => before,
        }
    }
}

/// What the dynamic segments among `segments` say about the needed libraries.
pub fn dynamic_info(segments: &Vec<Segment>) -> (r: DynamicInfo)
    ensures
        r@ == info_of(segment_views(segments@)),
{
    let ghost all = segment_views(segments@);
    let mut info = DynamicInfo { strtab: 0, strsz: 0, needed: Vec::new() };
    let mut i: usize = 0;
    assert(all.take(0) == Seq::<SegmentView>::empty());
    while i < segments.len()
        invariant
            i <= segments@.len(),
            all == segment_views(segments@),
            info@ == info_of(all.take(i as int)),
        decreases segments@.len() - i,
    {
        assert(all.take(i + 1).drop_last() == all.take(i as int));
        assert(all.take(i + 1).last() == segments@[i as int]@);
        match &segments[i].dynamic {
            Some(entries) => {
                let ghost before = info@;
                let mut j: usize = 0;
                assert(entries@.take(0) == Seq::<DynEntry>::empty());
                while j < entries.len()
                    invariant
                        j <= entries@.len(),
                        info@ == with_entries(before, entries@.take(j as int)),
                    decreases entries@.len() - j,
                {
                    assert(entries@.take(j + 1).drop_last() == entries@.take(j as int));
                    assert(entries@.take(j + 1).last() == entries@[j as int]);
                    let entry = entries[j];
                    if entry.tag == DT_STRTAB {
                        info.strtab = entry.value;
                    } else if entry.tag == DT_STRSZ {
                        info.strsz = entry.value;
                    } else if entry.tag == DT_NEEDED {
                        info.needed.push(entry.value);
                    }
                    j = j + 1;
                }
                assert(entries@.take(j as int) == entries@);
            },
            None => {},
        }
        i = i + 1;
    }
    assert(all.take(i as int) == all);
    info
}

/// Where the `size` bytes at the address `address` stand in the file `data`, if the
/// segment holds them: the bytes of the segment lie within the file, and the range
/// within the segment. A segment without bytes lies within every file, and holds the
/// empty range at its own address.
pub open spec fn range_in(data: Seq<u8>, segment: SegmentView, address: u64, size: u64) -> Option<
    (int, int),
> {
    if segment.filesz > 0 && (segment.offset > data.len() || segment.filesz > data.len()
        - segment.offset) {
        None
    } else if address < segment.vaddr || address - segment.vaddr > segment.filesz || size
        > segment.filesz - (address - segment.vaddr) {
        None
    } else if segment.filesz == 0 {
        Some((0, 0))
    } else {
        let start = segment.offset + (address - segment.vaddr);
        Some((start, start + size))
    }
}

/// The range in the file of the `size` bytes at `address`, in the first of `segments`
/// that holds them.
pub open spec fn table_range(data: Seq<u8>, segments: Seq<SegmentView>, address: u64, size: u64) -> Option<
    (int, int),
>
    decreases segments.len(),
{
    if segments.len() == 0 {
        None
    } else {
        match table_range(data, segments.drop_last(), address, size) {
            Some(range) => Some(range),
            None => range_in(data, segments.last(), address, size),
        }
    }
}

/// A range found among the first `n` segments is the range found among all.
proof fn lemma_table_range_extends(
    data: Seq<u8>,
    segments: Seq<SegmentView>,
    address: u64,
    size: u64,
    n: int,
)
    requires
        0 <= n <= segments.len(),
        table_range(data, segments.take(n), address, size) is Some,
    ensures
        table_range(data, segments, address, size) == table_range(
            data,
            segments.take(n),
            address,
            size,
        ),
    decreases segments.len() - n,
{
    if n < segments.len() {
        assert(segments.take(n + 1).drop_last() == segments.take(n));
        lemma_table_range_extends(data, segments, address, size, n + 1);
    } else {
        assert(segments.take(n) == segments);
    }
}

/// The bytes of `data` at the address `address` in `segment`, `size` of them.
fn segment_range<'a>(data: &'a [u8], segment: &Segment, address: u64, size: u64) -> (r: Option<
    &'a [u8],
>)
    ensures
        match r {
            Some(bytes) => range_in(data@, segment@, address, size) matches Some((from, to))
                && bytes@ == data@.subrange(from, to),
            None => range_in(data@, segment@, address, size) is None,
        },
{
    let len: u64 = data.len() as u64;
    if segment.filesz > 0 && (segment.offset > len || segment.filesz > len - segment.offset) {
        return None;
    }
    if address < segment.vaddr {
        return None;
    }
    let within: u64 = address - segment.vaddr;
    if within > segment.filesz || size > segment.filesz - within {
        return None;
    }
    if segment.filesz == 0 {
        return Some(slice_subrange(data, 0, 0));
    }
    let start: usize = (segment.offset + within) as usize;
    Some(slice_subrange(data, start, start + size as usize))
}

/// The string table of the file `data`: the `size` bytes at `address`, in the first of
/// `segments` that holds them.
pub fn string_table<'a>(data: &'a [u8], segments: &Vec<Segment>, address: u64, size: u64) -> (r:
    Option<&'a [u8]>)
    ensures
        match r {
            Some(bytes) => table_range(data@, segment_views(segments@), address, size) matches Some(
                (from, to),
            ) && bytes@ == data@.subrange(from, to),
            None => table_range(data@, segment_views(segments@), address, size) is None,
        },
{
    let ghost all = segment_views(segments@);
    let mut i: usize = 0;
    assert(all.take(0) == Seq::<SegmentView>::empty());
    while i < segments.len()
        invariant
            i <= segments@.len(),
            all == segment_views(segments@),
            table_range(data@, all.take(i as int), address, size) is None,
        decreases segments@.len() - i,
    {
        assert(all.take(i + 1).drop_last() == all.take(i as int));
        assert(all.take(i + 1).last() == segments@[i as int]@);
        match segment_range(data, &segments[i], address, size) {
            Some(bytes) => {
                proof {
                    lemma_table_range_extends(data@, all, address, size, i + 1);
                }
                return Some(bytes);
            },
            None => {},
        }
        i = i + 1;
    }
    assert(all.take(i as int) == all);
    None
}

/// The names at the offsets `offsets` in the string table `table`, in order, or
/// nothing where an offset is too large or no string stands there.
pub open spec fn names_at(table: Seq<u8>, offsets: Seq<u64>) -> Option<Seq<Seq<u8>>>
    decreases offsets.len(),
{
    if offsets.len() == 0 {
        Some(Seq::empty())
    } else {
        match names_at(table, offsets.drop_last()) {
            None => None,
            Some(before) => if offsets.last() > u32::MAX {
                None
            } else {
                match string_in(table, table.len() as int, offsets.last() as int) {
                    Some(name) => Some(before.push(name)),
                    None => None,
                }
            },
        }
    }
}

/// The byte strings of `names`, in order.
pub open spec fn name_views(names: Seq<Vec<u8>>) -> Seq<Seq<u8>> {
    names.map_values(|n: Vec<u8>| n@)
}

/// Offsets of which the first `n` give no names give none.
proof fn lemma_names_none_extends(table: Seq<u8>, offsets: Seq<u64>, n: int)
    requires
        0 <= n <= offsets.len(),
        names_at(table, offsets.take(n)) is None,
    ensures
        names_at(table, offsets) is None,
    decreases offsets.len() - n,
{
    if n < offsets.len() {
        assert(offsets.take(n + 1).drop_last() == offsets.take(n));
        lemma_names_none_extends(table, offsets, n + 1);
    } else {
        assert(offsets.take(n) == offsets);
    }
}

/// The names at the offsets `offsets` in the string table `table`.
pub fn needed_names(table: &[u8], offsets: &Vec<u64>) -> (r: Result<Vec<Vec<u8>>, Error>)
    ensures
        match r {
            Ok(names) => names_at(table@, offsets@) == Some(name_views(names@)),
            Err(e) => names_at(table@, offsets@) is None && e == Error::MalformedElf,
        },
{
    let end: u64 = table.len() as u64;
    let mut names: Vec<Vec<u8>> = Vec::new();
    let mut i: usize = 0;
    assert(offsets@.take(0) == Seq::<u64>::empty());
    assert(name_views(names@) == Seq::<Seq<u8>>::empty());
    while i < offsets.len()
        invariant
            i <= offsets@.len(),
            end == table@.len(),
            names_at(table@, offsets@.take(i as int)) == Some(name_views(names@)),
        decreases offsets@.len() - i,
    {
        assert(offsets@.take(i + 1).drop_last() == offsets@.take(i as int));
        assert(offsets@.take(i + 1).last() == offsets@[i as int]);
        let offset: u64 = offsets[i];
        if offset > 0xffff_ffff {
            proof {
                lemma_names_none_extends(table@, offsets@, i + 1);
            }
            return Err(Error::MalformedElf);
        }
        match string_at(table, end, offset as u32) {
            Some(name) => {
                let ghost before = name_views(names@);
                let owned = slice_to_vec(name);
                names.push(owned);
                assert(name_views(names@) == before.push(name@));
            },
            None => {
                proof {
                    lemma_names_none_extends(table@, offsets@, i + 1);
                }
                return Err(Error::MalformedElf);
            },
        }
        i = i + 1;
    }
    assert(offsets@.take(i as int) == offsets@);
    Ok(names)
}

/// The names of the libraries that a file with the segments `segments` needs: the
/// strings at the offsets of its `DT_NEEDED` entries, in the string table that the
/// first segment with the table's address holds. A file of which no segment holds the
/// table needs nothing. An offset at which no string stands is an error.
pub open spec fn needed_of(data: Seq<u8>, segments: Seq<SegmentView>) -> Result<Seq<Seq<u8>>, Error> {
    let info = info_of(segments);
    match table_range(data, segments, info.strtab, info.strsz) {
        None => Ok(Seq::empty()),
        Some((from, to)) => match names_at(data.subrange(from, to), info.needed) {
            Some(names) => Ok(names),
            None => Err(Error::MalformedElf),
        },
    }
}

/// The names of the libraries that the file `data` with the segments `segments` needs.
pub fn needed_in(data: &[u8], segments: &Vec<Segment>) -> (r: Result<Vec<Vec<u8>>, Error>)
    ensures
        match r {
            Ok(names) => needed_of(data@, segment_views(segments@)) == Ok::<Seq<Seq<u8>>, Error>(
                name_views(names@),
            ),
            Err(e) => needed_of(data@, segment_views(segments@)) == Err::<Seq<Seq<u8>>, Error>(e),
        },
{
    let info = dynamic_info(segments);
    match string_table(data, segments, info.strtab, info.strsz) {
        None => {
            let names: Vec<Vec<u8>> = Vec::new();
            assert(name_views(names@) == Seq::<Seq<u8>>::empty());
            Ok(names)
        },
        Some(table) => needed_names(table, &info.needed),
    }
}

/// The segments that the `object` crate reads from the ELF file `data` of the class
/// `class`.
pub open spec fn segments_of(data: Seq<u8>, class: ElfClass) -> Option<Seq<SegmentView>> {
    match class {
        ElfClass::Elf32 => elf32_segments(data),
        ElfClass::Elf64 => elf64_segments(data),
    }
}

/// The names of the libraries that the ELF file `data` of the class `class` needs.
pub fn elf_needed(data: &[u8], class: ElfClass) -> (r: Result<Vec<Vec<u8>>, Error>)
    ensures
        match r {
            Ok(names) => segments_of(data@, class) matches Some(segments) && needed_of(
                data@,
                segments,
            ) == Ok::<Seq<Seq<u8>>, Error>(name_views(names@)),
            Err(e) => match segments_of(data@, class) {
                Some(segments) => needed_of(data@, segments) == Err::<Seq<Seq<u8>>, Error>(e),
                None => e == Error::MalformedElf,
            },
        },
{
    let segments = match class {
        ElfClass::Elf32 => segments32(data),
        ElfClass::Elf64 => segments64(data),
    };
    match segments {
        Some(segments) => needed_in(data, &segments),
        None => Err(Error::MalformedElf),
    }
}

/// The names of the shared libraries that the program `data` asks for. A file that
/// is no ELF file is an error.
pub fn resolve(data: &[u8]) -> (r: Result<Vec<Vec<u8>>, Error>)
    ensures
        match r {
            Ok(names) => class_of(data@) matches Some(class) && segments_of(data@, class) matches Some(
                segments,
            ) && needed_of(data@, segments) == Ok::<Seq<Seq<u8>>, Error>(name_views(names@)),
            Err(e) => match class_of(data@) {
                None => e == Error::NotElf,
                Some(class) => match segments_of(data@, class) {
                    Some(segments) => needed_of(data@, segments) == Err::<Seq<Seq<u8>>, Error>(e),
                    None => e == Error::MalformedElf,
                },
            },
        },
{
    match elf_class(data) {
        Some(class) => elf_needed(data, class),
        None => Err(Error::NotElf),
    }
}

/// Those of `names` that are not empty, in order.
pub open spec fn named(names: Seq<Seq<char>>) -> Seq<Seq<char>>
    decreases names.len(),
{
    if names.len() == 0 {
        Seq::empty()
    } else if names.last().len() == 0 {
        named(names.drop_last())
    } else {
        named(names.drop_last()).push(names.last())
    }
}

/// The libraries of a link map whose entries have the names `names`, first to last,
/// an entry without a name having the empty name: the names of all but the first two
/// entries, which stand for the program itself and for the kernel's shared object, and
/// but the entries without a name.
pub open spec fn libraries_of(names: Seq<Seq<char>>) -> Seq<Seq<char>> {
    if names.len() < 2 {
        Seq::empty()
    } else {
        named(names.skip(2))
    }
}

/// The libraries of a link map whose entries have the names `names`, first to last.
pub fn walk_linkmap(names: Vec<String>) -> (r: Vec<String>)
    ensures
        views(r@) == libraries_of(views(names@)),
{
    let ghost all = views(names@);
    let mut out: Vec<String> = Vec::new();
    assert(views(out@) == Seq::<Seq<char>>::empty());
    if names.len() < 2 {
        return out;
    }
    let ghost rest = all.skip(2);
    let mut i: usize = 2;
    assert(rest.take(0) == Seq::<Seq<char>>::empty());
    while i < names.len()
        invariant
            2 <= i <= names@.len(),
            all == views(names@),
            rest == all.skip(2),
            views(out@) == named(rest.take(i - 2)),
        decreases names@.len() - i,
    {
        assert(rest.take(i - 1).drop_last() == rest.take(i - 2));
        assert(rest.take(i - 1).last() == names@[i as int]@);
        if names[i].as_str().unicode_len() > 0 {
            let ghost before = views(out@);
            let name = names[i].clone();
            out.push(name);
            assert(views(out@) == before.push(name@));
        }
        i = i + 1;
    }
    assert(rest.take(i - 2) == rest);
    out
}

} // verus!
