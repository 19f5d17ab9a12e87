//! Reading a newc archive back, as a description of what a reader finds in the bytes
//! that the writer produces.

use crate::newc::{
    archive_error, archive_image, entries_image, entry_error, file_size, header, hex_digit,
    hex_digits, hex_field, magic, numbered, pad_len, padded, trailer_name, trailer_view, written,
    EntryView, FIELD_MAX, INO_OFFSET,
};
use vstd::prelude::*;

verus! {

/// The value of the hex digit `d`, in either case.
pub open spec fn hex_value(d: u8) -> Option<int> {
    if 0x30 <= d <= 0x39 {
        Some(d - 0x30)
    } else if 0x61 <= d <= 0x66 {
        Some(d - 0x61 + 10)
    } else if 0x41 <= d <= 0x46 {
        Some(d - 0x41 + 10)
    } else {
        None
    }
}

/// The number that the hex digits `s` spell, most significant first.
pub open spec fn parse_hex(s: Seq<u8>) -> Option<int>
    decreases s.len(),
{
    if s.len() == 0 {
        Some(0)
    } else {
        match (parse_hex(s.drop_last()), hex_value(s.last())) {
            (Some(high), Some(low)) => Some(high * 16 + low),
            _ => None,
        }
    }
}

/// The least multiple of four that is not below `n`.
pub open spec fn aligned(n: int) -> int {
    n + pad_len(n)
}

/// The header field number `k` of the entry that starts at `at`.
pub open spec fn field(bytes: Seq<u8>, at: int, k: int) -> Option<int> {
    parse_hex(bytes.subrange(at + 6 + 8 * k, at + 14 + 8 * k))
}

/// The entry that starts at `at` in `bytes`, and the place where the next one starts:
/// the header with its magic number and fields, the name up to its NUL, and after
/// padding the data.
pub open spec fn read_entry(bytes: Seq<u8>, at: int) -> Option<(EntryView, int)> {
    if at < 0 || at + 110 > bytes.len() || bytes.subrange(at, at + 6) != magic() {
        None
    } else if exists|k: int| 0 <= k < 13 && #[trigger] field(bytes, at, k) is None {
        None
    } else {
        let name_size = field(bytes, at, 11).unwrap();
        let size = field(bytes, at, 6).unwrap();
        let name_end = at + 110 + name_size;
        let data_start = aligned(name_end);
        let data_end = data_start + size;
        if name_size < 1 || data_end > bytes.len() || bytes[name_end - 1] != 0 {
            None
        } else {
            Some(
                (
                    EntryView {
                        name: bytes.subrange(at + 110, name_end - 1),
                        ino: field(bytes, at, 0).unwrap() as u64,
                        mode: field(bytes, at, 1).unwrap() as u32,
                        uid: field(bytes, at, 2).unwrap() as u64,
                        gid: field(bytes, at, 3).unwrap() as u64,
                        nlink: field(bytes, at, 4).unwrap() as u64,
                        mtime: field(bytes, at, 5).unwrap() as u64,
                        dev_major: field(bytes, at, 7).unwrap() as u64,
                        dev_minor: field(bytes, at, 8).unwrap() as u64,
                        rdev_major: field(bytes, at, 9).unwrap() as u64,
                        rdev_minor: field(bytes, at, 10).unwrap() as u64,
                        data: if size == 0 {
                            None
                        } else {
                            Some(bytes.subrange(data_start, data_end))
                        },
                    },
                    aligned(data_end),
                ),
            )
        }
    }
}

/// The entries of the archive that starts at `at` in `bytes`, up to its trailer.
pub open spec fn read_archive(bytes: Seq<u8>, at: int) -> Option<Seq<EntryView>>
    decreases bytes.len() - at,
{
    match read_entry(bytes, at) {
        None => None,
        Some((entry, next)) => if entry.name == trailer_name() {
            Some(Seq::empty())
        } else if next <= at || next > bytes.len() {
            None
        } else {
            match read_archive(bytes, next) {
                Some(rest) => Some(seq![entry] + rest),
                None => None,
            }
        },
    }
}

/// The entry as a reader finds it: data of no bytes is no data.
pub open spec fn as_read(e: EntryView) -> EntryView {
    EntryView {
        data: match e.data {
            Some(d) => if d.len() == 0 {
                None
            } else {
                Some(d)
            },
            None => None,
        },
        ..e
    }
}

/// The entries as a reader finds them: each with the inode number of its place.
pub open spec fn delivered(entries: Seq<EntryView>) -> Seq<EntryView> {
    Seq::new(entries.len(), |i: int| as_read(numbered(entries[i], i)))
}

/// `hex_digits` gives as many digits as it is asked for.
proof fn lemma_hex_len(v: int, width: nat)
    ensures
        hex_digits(v, width).len() == width,
    decreases width,
{
    if width > 0 {
        lemma_hex_len(v / 16, (width - 1) as nat);
    }
}

/// What is left of `v` in `width` hex digits.
spec fn low_digits(v: int, width: nat) -> int
    decreases width,
{
    if width == 0 {
        0
    } else {
        low_digits(v / 16, (width - 1) as nat) * 16 + v % 16
    }
}

/// Reading the digits of `v` gives what is left of `v` in that many digits.
proof fn lemma_parse_hex_digits(v: int, width: nat)
    requires
        v >= 0,
    ensures
        parse_hex(hex_digits(v, width)) == Some(low_digits(v, width)),
    decreases width,
{
    if width > 0 {
        lemma_parse_hex_digits(v / 16, (width - 1) as nat);
        let digits = hex_digits(v, width);
        assert(digits.drop_last() == hex_digits(v / 16, (width - 1) as nat));
        assert(digits.last() == hex_digit(v % 16));
        assert(hex_value(hex_digit(v % 16)) == Some(v % 16));
    }
}

/// A field that was written reads back as the number written.
proof fn lemma_field_round_trip(v: int)
    requires
        0 <= v <= FIELD_MAX,
    ensures
        parse_hex(hex_field(v)) == Some(v),
        hex_field(v).len() == 8,
{
    lemma_parse_hex_digits(v, 8);
    lemma_hex_len(v, 8);
    reveal_with_fuel(low_digits, 9);
    assert(low_digits(v, 8) == v);
}

/// The header is 110 bytes, and each of its fields stands at its place.
proof fn lemma_header_layout(e: EntryView)
    ensures
        header(e).len() == 110,
        header(e).subrange(0, 6) == magic(),
        header(e).subrange(6, 14) == hex_field(e.ino as int),
        header(e).subrange(14, 22) == hex_field(e.mode as int),
        header(e).subrange(22, 30) == hex_field(e.uid as int),
        header(e).subrange(30, 38) == hex_field(e.gid as int),
        header(e).subrange(38, 46) == hex_field(e.nlink as int),
        header(e).subrange(46, 54) == hex_field(e.mtime as int),
        header(e).subrange(54, 62) == hex_field(file_size(e)),
        header(e).subrange(62, 70) == hex_field(e.dev_major as int),
        header(e).subrange(70, 78) == hex_field(e.dev_minor as int),
        header(e).subrange(78, 86) == hex_field(e.rdev_major as int),
        header(e).subrange(86, 94) == hex_field(e.rdev_minor as int),
        header(e).subrange(94, 102) == hex_field((e.name.len() + 1) as int),
        header(e).subrange(102, 110) == hex_field(0),
{
    lemma_hex_len(e.ino as int, 8);
    lemma_hex_len(e.mode as int, 8);
    lemma_hex_len(e.uid as int, 8);
    lemma_hex_len(e.gid as int, 8);
    lemma_hex_len(e.nlink as int, 8);
    lemma_hex_len(e.mtime as int, 8);
    lemma_hex_len(file_size(e), 8);
    lemma_hex_len(e.dev_major as int, 8);
    lemma_hex_len(e.dev_minor as int, 8);
    lemma_hex_len(e.rdev_major as int, 8);
    lemma_hex_len(e.rdev_minor as int, 8);
    lemma_hex_len((e.name.len() + 1) as int, 8);
    lemma_hex_len(0, 8);
}

/// What `written` appends: the length and the parts at their places.
proof fn lemma_written_layout(buf: Seq<u8>, e: EntryView)
    requires
        buf.len() % 4 == 0,
    ensures
        ({
            let at = buf.len() as int;
            let n = e.name.len() as int;
            let out = written(buf, e);
            &&& out.len() == aligned(aligned(at + 110 + n + 1) + file_size(e))
            &&& out.len() % 4 == 0
            &&& out.subrange(0, at) == buf
            &&& out.subrange(at, at + 110) == header(e)
            &&& out.subrange(at + 110, at + 110 + n) == e.name
            &&& out[at + 110 + n] == 0
            &&& e.data matches Some(d) ==> out.subrange(
                aligned(at + 110 + n + 1),
                aligned(at + 110 + n + 1) + d.len(),
            ) == d
        }),
{
    lemma_header_layout(e);
    let at = buf.len() as int;
    let n = e.name.len() as int;
    let named = padded(buf + header(e) + e.name.push(0u8));
    assert(named.len() == aligned(at + 110 + n + 1));
    assert(named.subrange(0, at) == buf);
    assert(named.subrange(at, at + 110) == header(e));
    assert(named.subrange(at + 110, at + 110 + n) == e.name);
    match e.data {
        Some(d) => {
            let all = padded(named + d);
            let m = named.len() as int;
            assert(all.subrange(0, at) == buf);
            assert(all.subrange(at, at + 110) == header(e));
            assert(all.subrange(at + 110, at + 110 + n) == e.name);
            assert(all.subrange(m, m + d.len()) == d);
        },
        None => {},
    }
}

/// A field whose digits stand in the header of the entry at `at` reads as its number.
proof fn lemma_field_at(bytes: Seq<u8>, at: int, k: int, v: int)
    requires
        0 <= at,
        at + 110 <= bytes.len(),
        0 <= k < 13,
        0 <= v <= FIELD_MAX,
        bytes.subrange(at, at + 110).subrange(6 + 8 * k, 14 + 8 * k) == hex_field(v),
    ensures
        field(bytes, at, k) == Some(v),
{
    lemma_field_round_trip(v);
    assert(bytes.subrange(at + 6 + 8 * k, at + 14 + 8 * k) == bytes.subrange(at, at + 110).subrange(
        6 + 8 * k,
        14 + 8 * k,
    ));
}

/// An entry that was written after `buf` reads back from any bytes that start with
/// what was written.
proof fn lemma_read_written(bytes: Seq<u8>, buf: Seq<u8>, e: EntryView)
    requires
        buf.len() % 4 == 0,
        entry_error(e) is None,
        written(buf, e).is_prefix_of(bytes),
    ensures
        read_entry(bytes, buf.len() as int) == Some((as_read(e), written(buf, e).len() as int)),
{
    let at = buf.len() as int;
    let out = written(buf, e);
    lemma_written_layout(buf, e);
    lemma_header_layout(e);
    assert(bytes.subrange(at, at + 110) == header(e)) by {
        assert(bytes.subrange(at, at + 110) == out.subrange(at, at + 110));
    }
    let head = bytes.subrange(at, at + 110);
    assert(bytes.subrange(at, at + 6) == head.subrange(0, 6));
    lemma_field_at(bytes, at, 0, e.ino as int);
    lemma_field_at(bytes, at, 1, e.mode as int);
    lemma_field_at(bytes, at, 2, e.uid as int);
    lemma_field_at(bytes, at, 3, e.gid as int);
    lemma_field_at(bytes, at, 4, e.nlink as int);
    lemma_field_at(bytes, at, 5, e.mtime as int);
    lemma_field_at(bytes, at, 6, file_size(e));
    lemma_field_at(bytes, at, 7, e.dev_major as int);
    lemma_field_at(bytes, at, 8, e.dev_minor as int);
    lemma_field_at(bytes, at, 9, e.rdev_major as int);
    lemma_field_at(bytes, at, 10, e.rdev_minor as int);
    lemma_field_at(bytes, at, 11, (e.name.len() + 1) as int);
    lemma_field_at(bytes, at, 12, 0);
    assert forall|k: int| 0 <= k < 13 implies #[trigger] field(bytes, at, k) is Some by {
        if k == 0 {
        } else if k == 1 {
        } else if k == 2 {
        } else if k == 3 {
        } else if k == 4 {
        } else if k == 5 {
        } else if k == 6 {
        } else if k == 7 {
        } else if k == 8 {
        } else if k == 9 {
        } else if k == 10 {
        } else if k == 11 {
        } else {
        }
    }
    let name_end = at + 110 + e.name.len() as int + 1;
    assert(bytes[name_end - 1] == out[name_end - 1]);
    assert(bytes.subrange(at + 110, name_end - 1) == out.subrange(at + 110, name_end - 1));
    let data_start = aligned(name_end);
    match e.data {
        Some(d) => {
            assert(bytes.subrange(data_start, data_start + d.len()) == out.subrange(
                data_start,
                data_start + d.len(),
            ));
        },
        None => {},
    }
}

/// Writing an entry keeps what was written before.
proof fn lemma_written_extends(buf: Seq<u8>, e: EntryView)
    ensures
        buf.is_prefix_of(written(buf, e)),
{
    let named = padded(buf + header(e) + e.name.push(0u8));
    assert(buf.is_prefix_of(named));
    match e.data {
        Some(d) => {
            assert(named.is_prefix_of(padded(named + d)));
        },
        None => {},
    }
}

/// The image of the first `n` entries has a length that is a multiple of four, and the
/// image of the archive starts with it.
proof fn lemma_image_prefix(entries: Seq<EntryView>, n: int)
    requires
        0 <= n <= entries.len(),
    ensures
        entries_image(entries.take(n)).len() % 4 == 0,
        entries_image(entries.take(n)).is_prefix_of(archive_image(entries)),
    decreases entries.len() - n,
{
    lemma_image_aligned(entries.take(n));
    if n < entries.len() {
        let next = entries.take(n + 1);
        assert(next.drop_last() == entries.take(n));
        lemma_written_extends(entries_image(entries.take(n)), numbered(next.last(), n));
        lemma_image_prefix(entries, n + 1);
    } else {
        assert(entries.take(n) == entries);
        lemma_written_extends(entries_image(entries), trailer_view());
    }
}

/// The image of entries has a length that is a multiple of four.
proof fn lemma_image_aligned(entries: Seq<EntryView>)
    ensures
        entries_image(entries).len() % 4 == 0,
    decreases entries.len(),
{
    if entries.len() > 0 {
        lemma_image_aligned(entries.drop_last());
        lemma_written_layout(
            entries_image(entries.drop_last()),
            numbered(entries.last(), entries.len() - 1),
        );
    }
}

/// No error in an archive means no error in any of its numbered entries.
proof fn lemma_no_error_each(entries: Seq<EntryView>, i: int)
    requires
        archive_error(entries) is None,
        0 <= i < entries.len(),
    ensures
        entry_error(numbered(entries[i], i)) is None,
        INO_OFFSET + i <= FIELD_MAX,
    decreases entries.len(),
{
    if i < entries.len() - 1 {
        lemma_no_error_each(entries.drop_last(), i);
    }
}

/// The entry at place `n` reads back from the image of the archive, and the entry
/// after it starts where it ends.
proof fn lemma_read_step(entries: Seq<EntryView>, n: int)
    requires
        0 <= n < entries.len(),
        archive_error(entries) is None,
    ensures
        read_entry(archive_image(entries), entries_image(entries.take(n)).len() as int) == Some(
            (as_read(numbered(entries[n], n)), entries_image(entries.take(n + 1)).len() as int),
        ),
        entries_image(entries.take(n)).len() < entries_image(entries.take(n + 1)).len()
            <= archive_image(entries).len(),
{
    let image = archive_image(entries);
    let before = entries_image(entries.take(n));
    let next = entries.take(n + 1);
    assert(next.drop_last() == entries.take(n));
    assert(next.last() == entries[n]);
    let e = numbered(entries[n], n);
    lemma_image_prefix(entries, n);
    lemma_image_prefix(entries, n + 1);
    lemma_no_error_each(entries, n);
    assert(entries_image(next) == written(before, e));
    lemma_read_written(image, before, e);
    lemma_written_layout(before, e);
}

/// The trailer reads back from the image of the archive, behind the entries.
proof fn lemma_read_trailer(entries: Seq<EntryView>)
    ensures
        read_entry(archive_image(entries), entries_image(entries).len() as int) matches Some(
            (entry, _),
        ) && entry.name == trailer_name(),
{
    let image = archive_image(entries);
    let before = entries_image(entries);
    lemma_image_aligned(entries);
    assert(entry_error(trailer_view()) is None) by {
        assert(forall|k: int| 0 <= k < 10 ==> trailer_name()[k] != 0u8);
    }
    assert(written(before, trailer_view()).is_prefix_of(image));
    lemma_read_written(image, before, trailer_view());
}

/// Reading the image of an archive from the place where entry `n` starts gives the
/// entries from `n` on.
proof fn lemma_read_from(entries: Seq<EntryView>, n: int)
    requires
        0 <= n <= entries.len(),
        archive_error(entries) is None,
        forall|i: int| 0 <= i < entries.len() ==> (#[trigger] entries[i]).name != trailer_name(),
    ensures
        read_archive(archive_image(entries), entries_image(entries.take(n)).len() as int) == Some(
            delivered(entries).skip(n),
        ),
    decreases entries.len() - n,
{
    if n < entries.len() {
        lemma_read_step(entries, n);
        lemma_read_from(entries, n + 1);
        assert(delivered(entries).skip(n) == seq![as_read(numbered(entries[n], n))] + delivered(
            entries,
        ).skip(n + 1));
    } else {
        assert(entries.take(n) == entries);
        lemma_read_trailer(entries);
        assert(delivered(entries).skip(n) == Seq::<EntryView>::empty());
    }
}

/// What a reader finds in the image of an archive is the archive: every entry with the
/// inode number of its place, for entries that can be written and of which none has the
/// name of the trailer. The image's length is a multiple of four.
pub proof fn lemma_archive_round_trip(entries: Seq<EntryView>)
    requires
        archive_error(entries) is None,
        forall|i: int| 0 <= i < entries.len() ==> (#[trigger] entries[i]).name != trailer_name(),
    ensures
        read_archive(archive_image(entries), 0) == Some(delivered(entries)),
        archive_image(entries).len() % 4 == 0,
{
    assert(entries.take(0) == Seq::<EntryView>::empty());
    lemma_read_from(entries, 0);
    assert(delivered(entries).skip(0) == delivered(entries));
    lemma_image_aligned(entries);
    lemma_written_layout(entries_image(entries), trailer_view());
}

/// The image of an archive does not depend on the inode numbers that its entries
/// come with.
pub proof fn lemma_image_ignores_inodes(a: Seq<EntryView>, b: Seq<EntryView>)
    requires
        a.len() == b.len(),
        forall|i: int| 0 <= i < a.len() ==> numbered(a[i], i) == numbered(b[i], i),
    ensures
        archive_image(a) == archive_image(b),
        archive_error(a) == archive_error(b),
{
    lemma_entries_image_ignores_inodes(a, b);
}

/// The image of entries does not depend on the inode numbers that they come with.
proof fn lemma_entries_image_ignores_inodes(a: Seq<EntryView>, b: Seq<EntryView>)
    requires
        a.len() == b.len(),
        forall|i: int| 0 <= i < a.len() ==> numbered(a[i], i) == numbered(b[i], i),
    ensures
        entries_image(a) == entries_image(b),
        archive_error(a) == archive_error(b),
    decreases a.len(),
{
    if a.len() > 0 {
        assert forall|i: int| 0 <= i < a.len() - 1 implies numbered(a.drop_last()[i], i)
            == numbered(b.drop_last()[i], i) by {
            assert(a.drop_last()[i] == a[i]);
            assert(b.drop_last()[i] == b[i]);
        }
        lemma_entries_image_ignores_inodes(a.drop_last(), b.drop_last());
        assert(numbered(a.last(), a.len() - 1) == numbered(b.last(), a.len() - 1));
    }
}

} // verus!
