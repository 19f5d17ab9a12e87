use initrz::newc::{
    major, minor, pad_buf, Archive, Entry, EntryBuilder, EntryName, FileMetadata, NewcError,
};

#[test]
fn test_builder() {
    let entry = EntryBuilder::file("/testfile", b"datadatadata".to_vec()).build();

    let mut buf = Vec::new();
    entry.write(&mut buf).unwrap();

    assert!(buf.len() > 0);
}

#[test]
fn test_serialize() {
    let empty = Archive::new(Vec::new());
    let trailer = EntryBuilder::trailer().build();

    let mut buf = Vec::new();
    trailer.write(&mut buf).unwrap();

    // an empty archive is just a trailer entry
    assert_eq!(empty.into_bytes().unwrap(), buf);
}

#[test]
fn trailer_bytes_are_exact() {
    let bytes = Archive::new(Vec::new()).into_bytes().unwrap();
    let mut expected = Vec::new();
    expected.extend_from_slice(b"070701");
    for field in 0..13 {
        if field == 11 {
            expected.extend_from_slice(b"0000000b");
        } else {
            expected.extend_from_slice(b"00000000");
        }
    }
    expected.extend_from_slice(b"TRAILER!!!\0");
    expected.extend_from_slice(&[0, 0, 0]);
    assert_eq!(bytes, expected);
    assert_eq!(bytes.len(), 124);
}

#[test]
fn single_file_archive() {
    let entry = EntryBuilder::file("init", b"hi".to_vec()).build();
    let bytes = Archive::new(vec![entry]).into_bytes().unwrap();
    assert_eq!(&bytes[0..6], b"070701");
    assert_eq!(&bytes[6..14], b"00000539");
    assert_eq!(bytes.len() % 4, 0);
    // header, "init\0" padded to 8, "hi" padded to 4, then the trailer
    assert_eq!(bytes.len(), 110 + 5 + 1 + 2 + 2 + 124);
    assert_eq!(&bytes[54..62], b"00000002");
    assert_eq!(&bytes[94..102], b"00000005");
    assert_eq!(&bytes[110..115], b"init\0");
    assert_eq!(bytes[115], 0);
    assert_eq!(&bytes[116..118], b"hi");
    assert_eq!(&bytes[118..120], &[0, 0]);
    assert_eq!(&bytes[120..126], b"070701");
    assert_eq!(&bytes[230..240], b"TRAILER!!!");
}

#[test]
fn inode_numbers_follow_the_index() {
    let entries = vec![
        EntryBuilder::directory("/dev").build(),
        EntryBuilder::directory("/etc").build(),
        EntryBuilder::symlink("/bin", "usr/bin").build(),
    ];
    let bytes = Archive::new(entries).into_bytes().unwrap();
    // header and "dev\0" are 114 bytes: each directory takes 116
    assert_eq!(&bytes[6..14], b"00000539");
    assert_eq!(&bytes[116 + 6..116 + 14], b"0000053a");
    assert_eq!(&bytes[232 + 6..232 + 14], b"0000053b");
    // mode of a directory and of a symlink
    assert_eq!(&bytes[14..22], b"000041ed");
    assert_eq!(&bytes[232 + 14..232 + 22], b"0000a000");
    // the symlink's target is its data
    assert_eq!(&bytes[232 + 54..232 + 62], b"00000007");
    assert_eq!(&bytes[232 + 110..232 + 114], b"bin\0");
    assert_eq!(&bytes[232 + 116..232 + 123], b"usr/bin");
    assert_eq!(bytes[232 + 123], 0);
    assert_eq!(bytes.len(), 232 + 124 + 124);
}

#[test]
fn entry_name_drops_the_root() {
    assert_eq!(
        EntryName::new("/usr/lib").into_bytes_with_nul().unwrap(),
        b"usr/lib\0".to_vec()
    );
    assert_eq!(
        EntryName::new("usr/lib").into_bytes_with_nul().unwrap(),
        b"usr/lib\0".to_vec()
    );
    assert_eq!(
        EntryName::new("//x").into_bytes_with_nul().unwrap(),
        b"x\0".to_vec()
    );
    assert_eq!(EntryName::new("/").into_bytes_with_nul().unwrap(), vec![0u8]);
}

#[test]
fn name_with_nul_is_refused() {
    assert_eq!(
        EntryName::new("a\0b").into_bytes_with_nul(),
        Err(NewcError::NameHasNul)
    );
    let mut buf = vec![1u8, 2, 3];
    let entry = Entry::new("bad\0name");
    assert_eq!(entry.write(&mut buf), Err(NewcError::NameHasNul));
    assert_eq!(buf, vec![1u8, 2, 3]);
    let archive = Archive::new(vec![Entry::new("ok"), Entry::new("no\0")]);
    assert_eq!(archive.into_bytes(), Err(NewcError::NameHasNul));
}

#[test]
fn large_field_is_refused() {
    let mut buf = Vec::new();
    let entry = EntryBuilder::file("f", Vec::new())
        .mtime(0x1_0000_0000)
        .build();
    assert_eq!(entry.write(&mut buf), Err(NewcError::FieldTooLarge));
    assert!(buf.is_empty());
    let entry = EntryBuilder::file("f", Vec::new()).mtime(0xffff_ffff).build();
    assert_eq!(entry.write(&mut buf), Ok(()));
    assert_eq!(&buf[46..54], b"ffffffff");
}

#[test]
fn write_pads_from_the_buffer_length() {
    let mut buf = vec![7u8];
    Entry::new("abc").write(&mut buf).unwrap();
    // 1 + 110 + 4 = 115, padded to 116
    assert_eq!(buf.len(), 116);
    assert_eq!(buf[0], 7);
    assert_eq!(&buf[1..7], b"070701");
    assert_eq!(buf[115], 0);
}

#[test]
fn pad_buf_pads_to_four() {
    for len in 0..9usize {
        let mut buf = vec![9u8; len];
        pad_buf(&mut buf);
        assert_eq!(buf.len(), (len + 3) / 4 * 4);
        assert!(buf[..len].iter().all(|b| *b == 9));
        assert!(buf[len..].iter().all(|b| *b == 0));
    }
}

#[test]
fn device_numbers() {
    assert_eq!(major(0x0801), 8);
    assert_eq!(minor(0x0801), 1);
    assert_eq!(major(0xfd00), 0xfd);
    assert_eq!(minor(0xfd00), 0);
    // bits above the low sixteen
    assert_eq!(major(0x0001_2345_0000_0800), 0x0001_2008);
    assert_eq!(minor(0x0001_2345_0000_0800), 0x3450_0000);
    assert_eq!(major(0x0000_0000_1230_0045), 0);
    assert_eq!(minor(0x0000_0000_1230_0045), 0x0001_2345);
    assert_eq!(major(u64::MAX), 0xffff_ffff);
    assert_eq!(minor(u64::MAX), 0xffff_ffff);
}

#[test]
fn metadata_fills_the_header() {
    let metadata = FileMetadata {
        mode: 0o100644,
        mtime: 0x5f00_0001,
        rdev: 0x0801,
    };
    let entry = EntryBuilder::file("/etc/ld.so.conf", Vec::new())
        .with_metadata(&metadata)
        .build();
    let mut buf = Vec::new();
    entry.write(&mut buf).unwrap();
    assert_eq!(&buf[14..22], b"000081a4");
    assert_eq!(&buf[46..54], b"5f000001");
    assert_eq!(&buf[78..86], b"00000008");
    assert_eq!(&buf[86..94], b"00000001");
    assert_eq!(&buf[110..125], b"etc/ld.so.conf\0");
}

#[test]
fn equal_entries_give_equal_images() {
    let build = || {
        Archive::new(vec![
            EntryBuilder::directory("/usr").build(),
            EntryBuilder::file("/usr/x", b"abc".to_vec()).mtime(5).build(),
        ])
        .into_bytes()
        .unwrap()
    };
    assert_eq!(build(), build());
}

/// What a reader finds in an archive: for every entry up to the trailer the thirteen
/// header fields, the name and the data.
fn read_archive(image: &[u8]) -> Vec<(Vec<u64>, Vec<u8>, Vec<u8>)> {
    let mut entries = Vec::new();
    let mut at = 0;
    loop {
        assert_eq!(&image[at..at + 6], b"070701");
        let fields: Vec<u64> = (0..13)
            .map(|k| {
                let digits = &image[at + 6 + 8 * k..at + 14 + 8 * k];
                u64::from_str_radix(std::str::from_utf8(digits).unwrap(), 16).unwrap()
            })
            .collect();
        let name_end = at + 110 + fields[11] as usize;
        assert_eq!(image[name_end - 1], 0);
        let name = image[at + 110..name_end - 1].to_vec();
        let data_start = (name_end + 3) / 4 * 4;
        let data_end = data_start + fields[6] as usize;
        assert!(image[name_end..data_start].iter().all(|b| *b == 0));
        if name == b"TRAILER!!!" {
            assert_eq!((data_end + 3) / 4 * 4, image.len());
            return entries;
        }
        entries.push((fields, name, image[data_start..data_end].to_vec()));
        at = (data_end + 3) / 4 * 4;
        assert!(image[data_end..at].iter().all(|b| *b == 0));
    }
}

#[test]
fn archives_read_back() {
    let metadata = FileMetadata {
        mode: 0o100755,
        mtime: 0x6543_2100,
        rdev: 0x0000_0103_0000_0507,
    };
    let entries = vec![
        EntryBuilder::directory("/usr").build(),
        EntryBuilder::file("/usr/a", b"x".to_vec()).with_metadata(&metadata).build(),
        EntryBuilder::file("/usr/empty", Vec::new()).mode(0o100644).build(),
        EntryBuilder::symlink("/lib", "usr/lib").build(),
        EntryBuilder::special_file("/dev/console").mode(0o020600).rdev_major(5).rdev_minor(1).build(),
        EntryBuilder::file("/twelve-bytes", b"datadatadata".to_vec()).build(),
        EntryBuilder::file("é", "ü".as_bytes().to_vec()).build(),
    ];
    let image = Archive::new(entries).into_bytes().unwrap();
    assert_eq!(image.len() % 4, 0);
    let read = read_archive(&image);
    let expected: Vec<(&str, u64, u64, u64, u64, &[u8])> = vec![
        ("usr", 0o040755, 0, 0, 0, b""),
        ("usr/a", 0o100755, 0x6543_2100, major(metadata.rdev), minor(metadata.rdev), b"x"),
        ("usr/empty", 0o100644, 0, 0, 0, b""),
        ("lib", 0o120000, 0, 0, 0, b"usr/lib"),
        ("dev/console", 0o020600, 0, 5, 1, b""),
        ("twelve-bytes", 0, 0, 0, 0, b"datadatadata"),
        ("é", 0, 0, 0, 0, "ü".as_bytes()),
    ];
    assert_eq!(read.len(), expected.len());
    for (index, ((fields, name, data), (want_name, mode, mtime, rmajor, rminor, want_data))) in
        read.iter().zip(expected.iter()).enumerate()
    {
        assert_eq!(name, want_name.as_bytes());
        assert_eq!(data, want_data);
        assert_eq!(
            fields,
            &vec![
                1337 + index as u64,
                *mode,
                0,
                0,
                0,
                *mtime,
                want_data.len() as u64,
                0,
                0,
                *rmajor,
                *rminor,
                want_name.len() as u64 + 1,
                0
            ]
        );
    }
}

#[test]
fn incoming_inode_numbers_do_not_matter() {
    let image = |first: &str, second: &str| {
        Archive::new(vec![
            EntryBuilder::file(first, b"1".to_vec()).build(),
            EntryBuilder::file(second, b"2".to_vec()).build(),
        ])
        .into_bytes()
        .unwrap()
    };
    assert_eq!(image("/a", "/b"), image("a", "b"));
    assert_ne!(image("/a", "/b"), image("/b", "/a"));
}
