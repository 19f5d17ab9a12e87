use initrz::depend::{
    dynamic_info, elf_needed, needed_in, needed_names, resolve, string_table, walk_linkmap,
    DynEntry, DynamicInfo, ElfClass, Segment, DT_NEEDED, DT_STRSZ, DT_STRTAB,
};
use initrz::error::Error;

fn put16(out: &mut Vec<u8>, v: u16) {
    out.extend_from_slice(&v.to_le_bytes());
}

fn put32(out: &mut Vec<u8>, v: u32) {
    out.extend_from_slice(&v.to_le_bytes());
}

fn put64(out: &mut Vec<u8>, v: u64) {
    out.extend_from_slice(&v.to_le_bytes());
}

/// A 64-bit little-endian ELF file with a load segment over the whole file and a
/// dynamic segment that asks for the libraries at the given offsets of its string
/// table.
fn elf64(strings: &[u8], needed: &[u64]) -> Vec<u8> {
    let dynamic_at = 64 + 2 * 56;
    let dynamic_size = 16 * (needed.len() + 3);
    let strings_at = dynamic_at + dynamic_size;
    let total = strings_at + strings.len();
    let mut out = vec![0x7f, b'E', b'L', b'F', 2, 1, 1, 0];
    out.extend_from_slice(&[0; 8]);
    put16(&mut out, 3);
    put16(&mut out, 62);
    put32(&mut out, 1);
    put64(&mut out, 0);
    put64(&mut out, 64);
    put64(&mut out, 0);
    put32(&mut out, 0);
    put16(&mut out, 64);
    put16(&mut out, 56);
    put16(&mut out, 2);
    put16(&mut out, 64);
    put16(&mut out, 0);
    put16(&mut out, 0);
    assert_eq!(out.len(), 64);
    // PT_LOAD
    put32(&mut out, 1);
    put32(&mut out, 5);
    put64(&mut out, 0);
    put64(&mut out, 0x10000);
    put64(&mut out, 0x10000);
    put64(&mut out, total as u64);
    put64(&mut out, total as u64);
    put64(&mut out, 0x1000);
    // PT_DYNAMIC
    put32(&mut out, 2);
    put32(&mut out, 6);
    put64(&mut out, dynamic_at as u64);
    put64(&mut out, 0x10000 + dynamic_at as u64);
    put64(&mut out, 0x10000 + dynamic_at as u64);
    put64(&mut out, dynamic_size as u64);
    put64(&mut out, dynamic_size as u64);
    put64(&mut out, 8);
    for offset in needed {
        put64(&mut out, 1);
        put64(&mut out, *offset);
    }
    put64(&mut out, 5);
    put64(&mut out, 0x10000 + strings_at as u64);
    put64(&mut out, 10);
    put64(&mut out, strings.len() as u64);
    put64(&mut out, 0);
    put64(&mut out, 0);
    out.extend_from_slice(strings);
    assert_eq!(out.len(), total);
    out
}

/// The same file in the 32-bit class, big-endian.
fn elf32(strings: &[u8], needed: &[u32]) -> Vec<u8> {
    let be16 = |out: &mut Vec<u8>, v: u16| out.extend_from_slice(&v.to_be_bytes());
    let be32 = |out: &mut Vec<u8>, v: u32| out.extend_from_slice(&v.to_be_bytes());
    let dynamic_at = 52 + 2 * 32;
    let dynamic_size = 8 * (needed.len() + 3);
    let strings_at = dynamic_at + dynamic_size;
    let total = strings_at + strings.len();
    let mut out = vec![0x7f, b'E', b'L', b'F', 1, 2, 1, 0];
    out.extend_from_slice(&[0; 8]);
    be16(&mut out, 3);
    be16(&mut out, 20);
    be32(&mut out, 1);
    be32(&mut out, 0);
    be32(&mut out, 52);
    be32(&mut out, 0);
    be32(&mut out, 0);
    be16(&mut out, 52);
    be16(&mut out, 32);
    be16(&mut out, 2);
    be16(&mut out, 40);
    be16(&mut out, 0);
    be16(&mut out, 0);
    assert_eq!(out.len(), 52);
    // PT_DYNAMIC comes first here; PT_LOAD holds the string table
    for (kind, offset, size) in [(2u32, dynamic_at, dynamic_size), (1u32, 0, total)] {
        be32(&mut out, kind);
        be32(&mut out, offset as u32);
        be32(&mut out, 0x8000 + offset as u32);
        be32(&mut out, 0x8000 + offset as u32);
        be32(&mut out, size as u32);
        be32(&mut out, size as u32);
        be32(&mut out, 4);
        be32(&mut out, 4);
    }
    for offset in needed {
        be32(&mut out, 1);
        be32(&mut out, *offset);
    }
    be32(&mut out, 5);
    be32(&mut out, 0x8000 + strings_at as u32);
    be32(&mut out, 10);
    be32(&mut out, strings.len() as u32);
    be32(&mut out, 0);
    be32(&mut out, 0);
    out.extend_from_slice(strings);
    assert_eq!(out.len(), total);
    out
}

#[test]
fn needed_libraries_of_a_32_bit_file() {
    let data = elf32(b"\0libc.so.6\0libz.so.1\0", &[1, 11]);
    assert_eq!(
        resolve(&data),
        Ok(vec![b"libc.so.6".to_vec(), b"libz.so.1".to_vec()])
    );
    assert_eq!(
        elf_needed(&data, ElfClass::Elf32),
        Ok(vec![b"libc.so.6".to_vec(), b"libz.so.1".to_vec()])
    );
}

#[test]
fn test_resolver() {
    // a program as a dynamic linker finds it: it asks for the C library
    let ls = elf64(b"\0libselinux.so.1\0libc.so.6\0", &[1, 17]);

    let dependencies = resolve(&ls).unwrap();
    let mut found_libc = false;

    for lib in dependencies {
        if String::from_utf8(lib)
            .expect("filename should be valid utf8")
            .starts_with("libc")
        {
            found_libc = true;
            break;
        }
    }

    if !found_libc {
        panic!("resolver did not list libc in dependencies")
    }
}

#[test]
fn needed_libraries_of_a_file() {
    let data = elf64(b"\0libc.so.6\0libm.so.6\0", &[11, 1]);
    assert_eq!(
        resolve(&data),
        Ok(vec![b"libm.so.6".to_vec(), b"libc.so.6".to_vec()])
    );
    assert_eq!(
        elf_needed(&data, ElfClass::Elf64),
        Ok(vec![b"libm.so.6".to_vec(), b"libc.so.6".to_vec()])
    );
    // an offset in the middle of a name, and the empty name at the start
    let data = elf64(b"\0libc.so.6\0", &[4, 0]);
    assert_eq!(resolve(&data), Ok(vec![b"c.so.6".to_vec(), Vec::new()]));
    // a program that needs nothing
    let data = elf64(b"\0", &[]);
    assert_eq!(resolve(&data), Ok(Vec::new()));
}

#[test]
fn files_that_are_no_programs() {
    assert_eq!(resolve(b""), Err(Error::NotElf));
    assert_eq!(resolve(b"#!/bin/sh\necho hello world\n"), Err(Error::NotElf));
    assert_eq!(resolve(b"\x7fELF"), Err(Error::NotElf));
    assert_eq!(resolve(b"\x7fELF\x03\x01\x01\0\0\0\0\0\0\0\0\0"), Err(Error::NotElf));
    // the magic number alone is no file
    assert_eq!(resolve(b"\x7fELF\x02\x01\x01\0\0\0\0\0\0\0\0\0"), Err(Error::MalformedElf));
    assert_eq!(resolve(b"\x7fELF\x01\x01\x01\0\0\0\0\0\0\0\0\0"), Err(Error::MalformedElf));
    // a 64-bit file is no 32-bit file
    let data = elf64(b"\0libc.so.6\0", &[1]);
    assert!(elf_needed(&data, ElfClass::Elf32) != Ok(vec![b"libc.so.6".to_vec()]));
}

#[test]
fn bad_string_offsets() {
    // behind the table, and at a string without an end
    let data = elf64(b"\0libc.so.6\0", &[100]);
    assert_eq!(resolve(&data), Err(Error::MalformedElf));
    let data = elf64(b"\0libc.so.6", &[1]);
    assert_eq!(resolve(&data), Err(Error::MalformedElf));
    let data = elf64(b"\0libc.so.6\0", &[0x1_0000_0001]);
    assert_eq!(resolve(&data), Err(Error::MalformedElf));
}

fn entry(tag: i64, value: u64) -> DynEntry {
    DynEntry { tag, value }
}

fn segment(vaddr: u64, offset: u64, filesz: u64, dynamic: Option<Vec<DynEntry>>) -> Segment {
    Segment { vaddr, offset, filesz, dynamic }
}

#[test]
fn dynamic_entries() {
    let segments = vec![
        segment(0, 0, 10, None),
        segment(
            0,
            0,
            10,
            Some(vec![
                entry(DT_NEEDED, 7),
                entry(DT_STRTAB, 100),
                entry(DT_STRSZ, 20),
                entry(12, 99),
                entry(DT_NEEDED, 3),
                entry(0, 0),
            ]),
        ),
        segment(0, 0, 10, Some(vec![entry(DT_STRTAB, 200), entry(DT_NEEDED, 7)])),
    ];
    assert_eq!(
        dynamic_info(&segments),
        DynamicInfo { strtab: 200, strsz: 20, needed: vec![7, 3, 7] }
    );
    assert_eq!(
        dynamic_info(&Vec::new()),
        DynamicInfo { strtab: 0, strsz: 0, needed: Vec::new() }
    );
}

#[test]
fn string_tables() {
    let data: Vec<u8> = (0u8..100).collect();
    let segments = vec![
        segment(1000, 10, 20, None),
        segment(2000, 50, 30, None),
        segment(1000, 60, 20, None),
        segment(0, 90, 20, None),
    ];
    assert_eq!(string_table(&data, &segments, 1000, 20), Some(&data[10..30]));
    assert_eq!(string_table(&data, &segments, 1005, 15), Some(&data[15..30]));
    assert_eq!(string_table(&data, &segments, 1020, 0), Some(&data[30..30]));
    assert_eq!(string_table(&data, &segments, 2010, 20), Some(&data[60..80]));
    // too long, before every segment, behind every segment, a segment behind the file
    assert_eq!(string_table(&data, &segments, 1005, 16), None);
    assert_eq!(string_table(&data, &segments, 999, 1), None);
    assert_eq!(string_table(&data, &segments, 2031, 0), None);
    assert_eq!(string_table(&data, &segments, 5, 1), None);
    assert_eq!(string_table(&data, &Vec::new(), 0, 0), None);
    // a segment without bytes holds the empty range at its address, wherever it lies
    let empty = vec![segment(700, 5000, 0, None)];
    assert_eq!(string_table(&data, &empty, 700, 0), Some(&data[0..0]));
    assert_eq!(string_table(&[], &empty, 700, 0), Some(&data[0..0]));
    assert_eq!(string_table(&data, &empty, 700, 1), None);
    assert_eq!(string_table(&data, &empty, 701, 0), None);
    assert_eq!(string_table(&data, &empty, 699, 0), None);
    assert_eq!(string_table(&data, &segments, u64::MAX, u64::MAX), None);
}

#[test]
fn names_in_a_table() {
    let table = b"\0libc.so.6\0libdl.so.2\0";
    assert_eq!(
        needed_names(table, &vec![1, 11, 14, 0, 21]),
        Ok(vec![
            b"libc.so.6".to_vec(),
            b"libdl.so.2".to_vec(),
            b"dl.so.2".to_vec(),
            Vec::new(),
            Vec::new(),
        ])
    );
    assert_eq!(needed_names(table, &Vec::new()), Ok(Vec::new()));
    assert_eq!(needed_names(table, &vec![1, 22]), Err(Error::MalformedElf));
    assert_eq!(needed_names(table, &vec![23]), Err(Error::MalformedElf));
    assert_eq!(needed_names(b"abc", &vec![0]), Err(Error::MalformedElf));
    assert_eq!(needed_names(table, &vec![1 << 32]), Err(Error::MalformedElf));
}

#[test]
fn needed_without_a_table() {
    let data = vec![0u8; 8];
    let segments = vec![segment(
        100,
        0,
        8,
        Some(vec![entry(DT_NEEDED, 1), entry(DT_STRTAB, 500), entry(DT_STRSZ, 4)]),
    )];
    assert_eq!(needed_in(&data, &segments), Ok(Vec::new()));
    let segments = vec![segment(
        100,
        0,
        8,
        Some(vec![entry(DT_NEEDED, 1), entry(DT_STRTAB, 102), entry(DT_STRSZ, 4)]),
    )];
    assert_eq!(needed_in(&data, &segments), Ok(vec![Vec::new()]));
}

#[test]
fn link_maps() {
    let names = |v: &[&str]| -> Vec<String> { v.iter().map(|s| s.to_string()).collect() };
    assert_eq!(
        walk_linkmap(names(&["", "linux-vdso.so.1", "/lib/libc.so.6", "/lib/ld.so"])),
        names(&["/lib/libc.so.6", "/lib/ld.so"])
    );
    // entries without a name are passed over
    assert_eq!(
        walk_linkmap(names(&["", "linux-vdso.so.1", "", "/lib/libc.so.6", "", "/lib/ld.so", ""])),
        names(&["/lib/libc.so.6", "/lib/ld.so"])
    );
    assert!(walk_linkmap(names(&["/lib/a.so", "/lib/b.so", ""])).is_empty());
    assert!(walk_linkmap(names(&["", "linux-vdso.so.1"])).is_empty());
    assert!(walk_linkmap(names(&[""])).is_empty());
    assert!(walk_linkmap(Vec::new()).is_empty());
}
