use initrz::config::Config;
use initrz::initramfs::{
    image_plan, initrz_candidates, library_destination, module_destination, normalize, parent,
    ImageItem, Initramfs, ReadFile,
};
use initrz::initramfs_modules::{get_all_modules, get_host_modules, get_modules, is_module_needed};
use initrz::initramfs_type::InitramfsType;
use initrz::error::Error;
use initrz::module::{get_general_modules, is_module, list_modules, Module};
use initrz::module_loader::LoadError;
use initrz::newc::{Archive, EntryBuilder, FileMetadata};
use std::io::Write;

fn lines(text: &[&str]) -> Vec<String> {
    text.iter().map(|s| s.to_string()).collect()
}

#[test]
fn general_selection() {
    assert!(is_module_needed("ext4", "kernel/fs/ext4/ext4.ko.xz"));
    assert!(!is_module_needed("fat_nls", "kernel/fs/nls/nls_cp437.ko.xz"));
    assert!(is_module_needed("dm-crypt", "kernel/drivers/md/dm-crypt.ko.xz"));
    assert!(!is_module_needed("foo", "kernel/drivers/misc/foo.ko.xz"));
}

#[test]
fn selection_rules() {
    // file systems, but not their character sets
    assert!(is_module_needed("x", "kernel/fs/x.ko"));
    assert!(is_module_needed("nls", "kernel/fs/nls.ko"));
    assert!(!is_module_needed("x", "kernel/fs/nls/x.ko"));
    assert!(!is_module_needed("x", "kernel/fsx/x.ko"));
    // encryption by path and by name
    assert!(is_module_needed("aes", "kernel/crypto/aes.ko"));
    assert!(!is_module_needed("aes", "kernel/cryptox/aes.ko"));
    assert!(is_module_needed("dm-crypt", "kernel/elsewhere/x.ko"));
    assert!(is_module_needed("dm-integrity", "kernel/elsewhere/x.ko"));
    assert!(!is_module_needed("dm_crypt", "kernel/elsewhere/x.ko"));
    // device mapper and helpers
    assert!(is_module_needed("raid1", "kernel/drivers/md/raid1.ko"));
    assert!(is_module_needed("crc", "kernel/lib/crc.ko"));
    assert!(!is_module_needed("crc", "kernel/libs/crc.ko"));
    // words for block devices, anywhere in the path
    for path in [
        "kernel/drivers/scsi/sd_mod.ko",
        "kernel/drivers/x/sr_mod.ko",
        "kernel/drivers/x/usb_storage.ko",
        "kernel/drivers/x/firewire-sbp2.ko",
        "kernel/x/blocky.ko",
        "kernel/x/iscsi.ko",
        "kernel/drivers/message/fusion/mpt.ko",
        "kernel/drivers/nvme/host/nvme.ko",
        "kernel/x/mmc_core.ko",
        "kernel/x/tifm_7xx1.ko",
        "kernel/x/virtio_blk.ko",
        "kernel/drivers/ata/ahci.ko",
        "kernel/drivers/usb/host/xhci.ko",
        "kernel/drivers/usb/storage/uas.ko",
        "kernel/drivers/firewire/ohci.ko",
    ] {
        assert!(is_module_needed("x", path), "{}", path);
    }
    assert!(!is_module_needed("sd_mod", "kernel/drivers/misc/sd.ko"));
    assert!(!is_module_needed("x", "kernel/drivers/ata"));
    // keyboards
    assert!(is_module_needed("x", "kernel/drivers/hid/hid-generic.ko"));
    assert!(is_module_needed("x", "kernel/drivers/input/keyboard/atkbd.ko"));
    assert!(is_module_needed("x", "kernel/drivers/input/serio/i8042.ko"));
    assert!(is_module_needed("x", "kernel/usbhid.ko"));
    assert!(!is_module_needed("x", "kernel/drivers/input/mouse/psmouse.ko"));
    assert!(!is_module_needed("usbhid", "kernel/drivers/x/usbhid.ko"));
    // only below `kernel/`
    assert!(!is_module_needed("ext4", "updates/fs/ext4/ext4.ko.xz"));
    assert!(!is_module_needed("ext4", "fs/ext4/ext4.ko.xz"));
    assert!(!is_module_needed("dm-crypt", "extra/dm-crypt.ko"));
    assert!(!is_module_needed("ext4", "kernel"));
    assert!(!is_module_needed("ext4", ""));
    assert!(!is_module_needed("x", "kernel/"));
}

fn dep_lines() -> Vec<String> {
    lines(&[
        "kernel/fs/ext4/ext4.ko.xz: kernel/fs/jbd2/jbd2.ko.xz",
        "kernel/fs/nls/nls_cp437.ko.xz:",
        "kernel/drivers/md/dm-crypt.ko.xz:",
        "kernel/drivers/misc/foo.ko.xz:",
        "kernel/drivers/net/e1000.ko.xz:",
    ])
}

#[test]
fn modules_of_a_general_image() {
    let files = get_modules(
        InitramfsType::General,
        "/lib/modules/6.1.0",
        Vec::new(),
        &dep_lines(),
        &Vec::new(),
    )
    .unwrap();
    assert_eq!(
        files,
        vec![
            "/lib/modules/6.1.0/kernel/fs/ext4/ext4.ko.xz",
            "/lib/modules/6.1.0/kernel/drivers/md/dm-crypt.ko.xz",
        ]
    );
    let files = get_modules(
        InitramfsType::General,
        "/lib/modules/6.1.0/",
        lines(&["e1000", "unknown"]),
        &dep_lines(),
        &lines(&["foo 16384 0 - Live 0x0"]),
    )
    .unwrap();
    assert_eq!(
        files,
        vec![
            "/lib/modules/6.1.0/kernel/fs/ext4/ext4.ko.xz",
            "/lib/modules/6.1.0/kernel/drivers/md/dm-crypt.ko.xz",
            "/lib/modules/6.1.0/kernel/drivers/net/e1000.ko.xz",
        ]
    );
}

#[test]
fn modules_of_a_host_image() {
    let host = lines(&[
        "ext4 999424 1 - Live 0xffffffffc0a00000",
        "foo 16384 0 - Live 0xffffffffc09f0000",
        "",
        "   ",
    ]);
    let files = get_modules(
        InitramfsType::Host,
        "/lib/modules/6.1.0",
        lines(&["nls_cp437"]),
        &dep_lines(),
        &host,
    )
    .unwrap();
    assert_eq!(
        files,
        vec![
            "/lib/modules/6.1.0/kernel/fs/ext4/ext4.ko.xz",
            "/lib/modules/6.1.0/kernel/fs/nls/nls_cp437.ko.xz",
        ]
    );
    assert_eq!(get_host_modules(&host), vec!["ext4", "foo"]);
    assert!(get_host_modules(&Vec::new()).is_empty());
}

#[test]
fn module_lists() {
    assert_eq!(
        get_all_modules(&lines(&["kernel/a/x.ko.xz: kernel/b/y.ko.xz", "kernel/b/y.ko.zst"])),
        Ok(vec![
            ("x".to_string(), "kernel/a/x.ko.xz".to_string()),
            ("y".to_string(), "kernel/b/y.ko.zst".to_string()),
        ])
    );
    assert_eq!(get_all_modules(&Vec::new()), Ok(Vec::new()));
    assert_eq!(
        get_all_modules(&lines(&["kernel/a/x.ko.xz:", "", "kernel/b/y.ko.xz:"])),
        Err(Error::ModuleName)
    );
    assert_eq!(
        get_modules(
            InitramfsType::General,
            "/k",
            Vec::new(),
            &lines(&[": nothing"]),
            &Vec::new()
        ),
        Err(Error::ModuleName)
    );
}

#[test]
fn module_files_by_name() {
    assert!(is_module("/lib/modules/6/kernel/fs/ext4.ko.xz"));
    assert!(is_module("a.b.ko.xz"));
    assert!(!is_module("/lib/modules/6/kernel/fs/ext4.ko"));
    assert!(!is_module("/lib/modules/6/kernel/fs/ext4.ko.zst"));
    assert!(!is_module("/lib/modules/6/kernel/fs/ext4.xz"));
    assert!(!is_module("/lib/modules/6/modules.dep"));
    assert!(!is_module(".ko.xz"));
    assert!(!is_module("ko.xz"));
    assert!(!is_module(""));
    let files = lines(&[
        "/m/6/kernel/fs/ext4.ko.xz",
        "/m/6/modules.dep",
        "/m/6/kernel/fs/nls/nls_utf8.ko.xz",
        "/m/6/kernel/drivers/md/dm-crypt.ko.xz",
        "/m/6/updates/ext4.ko.xz",
        "/m/6/kernel/drivers/net/e1000.ko.xz",
        "/m/6/kernel/drivers/misc/foo.ko.xz",
        "/m/6/kernel/net/plain.ko",
    ]);
    assert_eq!(
        list_modules(&files),
        vec![
            Module::new("ext4".to_string(), "/m/6/updates/ext4.ko.xz"),
            Module::new("nls_utf8".to_string(), "/m/6/kernel/fs/nls/nls_utf8.ko.xz"),
            Module::new("dm-crypt".to_string(), "/m/6/kernel/drivers/md/dm-crypt.ko.xz"),
            Module::new("e1000".to_string(), "/m/6/kernel/drivers/net/e1000.ko.xz"),
            Module::new("foo".to_string(), "/m/6/kernel/drivers/misc/foo.ko.xz"),
        ]
    );
    // a general image: what serves the root device, and what the user asks for
    assert_eq!(
        get_general_modules("/m/6", &files, lines(&["e1000", "unknown"])),
        vec![
            Module::new("dm-crypt".to_string(), "/m/6/kernel/drivers/md/dm-crypt.ko.xz"),
            Module::new("e1000".to_string(), "/m/6/kernel/drivers/net/e1000.ko.xz"),
        ]
    );
    assert_eq!(
        get_general_modules("/m/6/", &files, Vec::new()),
        vec![Module::new("dm-crypt".to_string(), "/m/6/kernel/drivers/md/dm-crypt.ko.xz")]
    );
    // the later file for `ext4` does not lie below `kernel/`
    assert_eq!(
        get_general_modules("/m/6", &files[..1].to_vec(), Vec::new()),
        vec![Module::new("ext4".to_string(), "/m/6/kernel/fs/ext4.ko.xz")]
    );
    // a host image: of those the loaded ones, and what the user asks for
    let loaded = lines(&["foo", "e1000", "ext4"]);
    assert_eq!(
        initrz::module::get_host_modules("/m/6", &files, lines(&["foo"]), &loaded),
        vec![Module::new("foo".to_string(), "/m/6/kernel/drivers/misc/foo.ko.xz")]
    );
    assert_eq!(
        initrz::module::get_host_modules("/m/6", &files, Vec::new(), &lines(&["dm-crypt"])),
        vec![Module::new("dm-crypt".to_string(), "/m/6/kernel/drivers/md/dm-crypt.ko.xz")]
    );
    assert_eq!(
        initrz::module::get_host_modules("/m/6", &files[..1].to_vec(), lines(&["nope"]), &loaded),
        vec![Module::new("ext4".to_string(), "/m/6/kernel/fs/ext4.ko.xz")]
    );
    assert!(
        initrz::module::get_host_modules("/m/6", &files, Vec::new(), &Vec::new()).is_empty()
    );
    // a directory that does not hold the files
    assert!(get_general_modules("/other", &files, Vec::new()).is_empty());
}

#[test]
fn module_contents() {
    let module = Module::new("ext4".to_string(), "/m/ext4.ko.xz");
    assert_eq!(module.name, "ext4");
    assert_eq!(module.path, "/m/ext4.ko.xz");
    let payload = b"payload payload payload".to_vec();
    let mut encoder = xz2::write::XzEncoder::new(Vec::new(), 6);
    encoder.write_all(&payload).unwrap();
    let blob = encoder.finish().unwrap();
    assert_eq!(module.into_bytes(&blob), Ok(payload));
    assert_eq!(module.into_bytes(b"not xz"), Err(LoadError::DecompressFailed));
}

#[test]
fn config() {
    assert_eq!(Config::new(None).modules, Vec::<String>::new());
    assert_eq!(Config::new(Some(lines(&["a", "b"]))).modules, vec!["a", "b"]);
}

#[test]
fn names_and_parents() {
    assert_eq!(normalize("/usr/lib"), "usr/lib");
    assert_eq!(normalize("usr/lib"), "usr/lib");
    assert_eq!(normalize("///x/"), "x/");
    assert_eq!(normalize("/"), "");
    assert_eq!(normalize(""), "");
    assert_eq!(parent("usr/lib/x.so"), Some("usr/lib".to_string()));
    assert_eq!(parent("usr/lib"), Some("usr".to_string()));
    assert_eq!(parent("usr"), Some(String::new()));
    assert_eq!(parent(""), None);
    assert_eq!(parent("a//b"), Some("a".to_string()));
    assert_eq!(parent("a/"), Some("a".to_string()));
}

fn names_of(image: Vec<u8>) -> Vec<(String, u32)> {
    // a reader for what the writer produces: names and modes, up to the trailer
    let mut out = Vec::new();
    let mut at = 0;
    loop {
        assert_eq!(&image[at..at + 6], b"070701");
        let field = |k: usize| {
            let text = std::str::from_utf8(&image[at + 6 + 8 * k..at + 14 + 8 * k]).unwrap();
            usize::from_str_radix(text, 16).unwrap()
        };
        assert_eq!(field(0), if field(11) == 11 && field(1) == 0 { 0 } else { 1337 + out.len() });
        let name_end = at + 110 + field(11);
        let name = String::from_utf8(image[at + 110..name_end - 1].to_vec()).unwrap();
        if name == "TRAILER!!!" {
            assert_eq!((name_end + 3) / 4 * 4, image.len());
            return out;
        }
        out.push((name, field(1) as u32));
        at = ((name_end + 3) / 4 * 4 + field(6) + 3) / 4 * 4;
    }
}

#[test]
fn basic_structure() {
    let image = Initramfs::new_basic_structure();
    for path in ["/dev", "/etc", "/usr/lib", "/bin", "/usr/sbin", "usr/lib64", "/usr"] {
        assert!(image.contains(path), "{}", path);
    }
    assert!(!image.contains("/init"));
    assert!(!image.contains("/"));
    let names = names_of(image.into_bytes().unwrap());
    let expected: Vec<(String, u32)> = [
        ("dev", 0o040755),
        ("etc", 0o040755),
        ("new_root", 0o040755),
        ("proc", 0o040755),
        ("run", 0o040755),
        ("sys", 0o040755),
        ("usr", 0o040755),
        ("usr/bin", 0o040755),
        ("usr/lib", 0o040755),
        ("bin", 0o120000),
        ("lib", 0o120000),
        ("lib64", 0o120000),
        ("sbin", 0o120000),
        ("usr/lib64", 0o120000),
        ("usr/sbin", 0o120000),
    ]
    .iter()
    .map(|(n, m)| (n.to_string(), *m))
    .collect();
    assert_eq!(names, expected);
}

#[test]
fn files_bring_their_directories() {
    let metadata = FileMetadata { mode: 0o100755, mtime: 7, rdev: 0 };
    let mut image = Initramfs::new_basic_structure();
    assert!(image.add_file_with_path(b"elf".to_vec(), &metadata, "/usr/lib/modules/6/kernel/x.ko"));
    assert!(!image.add_file_with_path(b"other".to_vec(), &metadata, "/usr/lib/modules/6/kernel/x.ko"));
    assert!(!image.add_file_with_path(b"other".to_vec(), &metadata, "usr/lib/modules/6/kernel/x.ko"));
    assert!(image.add_symlink("/usr/lib/modules/6/build", "../../src"));
    assert!(!image.add_symlink("/bin", "elsewhere"));
    assert!(image.add_file_with_path(Vec::new(), &metadata, "/init"));
    image.add_directory("/usr/lib/modules");
    image.add_directory("/var/log");
    assert!(image.contains("/var"));
    assert!(image.contains("/"));
    let names: Vec<String> = names_of(image.into_bytes().unwrap())
        .into_iter()
        .skip(15)
        .map(|(name, _)| name)
        .collect();
    assert_eq!(
        names,
        vec![
            "usr/lib/modules",
            "usr/lib/modules/6",
            "usr/lib/modules/6/kernel",
            "usr/lib/modules/6/kernel/x.ko",
            "usr/lib/modules/6/build",
            "",
            "init",
            "var",
            "var/log",
        ]
    );
}

#[test]
fn image_matches_the_archive_of_its_entries() {
    let metadata = FileMetadata { mode: 0o100644, mtime: 42, rdev: 0x0801 };
    let mut image = Initramfs::new_basic_structure();
    image.add_file_with_path(b"hello".to_vec(), &metadata, "/etc/motd");
    let mut entries = Vec::new();
    for dir in ["/dev", "/etc", "/new_root", "/proc", "/run", "/sys", "/usr", "/usr/bin", "/usr/lib"] {
        entries.push(EntryBuilder::directory(dir).build());
    }
    for (link, target) in [
        ("/bin", "usr/bin"),
        ("/lib", "usr/lib"),
        ("/lib64", "lib"),
        ("/sbin", "usr/sbin"),
        ("/usr/lib64", "lib"),
        ("/usr/sbin", "bin"),
    ] {
        entries.push(EntryBuilder::symlink(link, target).build());
    }
    entries.push(
        EntryBuilder::file("/etc/motd", b"hello".to_vec())
            .with_metadata(&metadata)
            .build(),
    );
    assert_eq!(image.into_bytes(), Archive::new(entries).into_bytes());
}

#[test]
fn destinations() {
    assert_eq!(
        library_destination("/lib/x86_64-linux-gnu/libc.so.6"),
        Some("/usr/lib/libc.so.6".to_string())
    );
    assert_eq!(library_destination("libm.so"), Some("/usr/lib/libm.so".to_string()));
    assert_eq!(library_destination("/usr/lib/"), Some("/usr/lib/lib".to_string()));
    assert_eq!(library_destination("/"), None);
    assert_eq!(library_destination(""), None);
    assert_eq!(library_destination("/lib/.."), None);
    assert_eq!(
        module_destination("/usr/lib/modules/6.1.0", "/usr/lib/modules/6.1.0/kernel/fs/ext4.ko.xz"),
        "/lib/modules/6.1.0/kernel/fs/ext4.ko.xz"
    );
    assert_eq!(
        module_destination("/usr/lib/modules/6.1.0", "/usr/lib/modules/6.1.0/modules.dep"),
        "/lib/modules/6.1.0/modules.dep"
    );
    assert_eq!(module_destination("/lib/modules/6", "/elsewhere/x.ko"), "/elsewhere/x.ko");
    assert_eq!(module_destination("6", "6/x.ko"), "/lib/modules/6/x.ko");
}

#[test]
fn plans() {
    let modules = lines(&["/lib/modules/6/kernel/fs/ext4.ko.xz"]);
    let plan = image_plan(InitramfsType::Host, "/lib/modules/6", "/sbin/initrz", &modules);
    let file = |source: &str, destination: &str| ImageItem::File {
        source: source.to_string(),
        destination: destination.to_string(),
    };
    let program = |source: &str, destination: &str| ImageItem::Program {
        source: source.to_string(),
        destination: destination.to_string(),
    };
    assert_eq!(
        plan,
        vec![
            program("/sbin/initrz", "/init"),
            program("/sbin/vgchange", "/sbin/vgchange"),
            program("/sbin/vgmknodes", "/sbin/vgmknodes"),
            program("/bin/busybox", "/bin/busybox"),
            ImageItem::EmptyFile("/etc/ld.so.conf".to_string()),
            file("/lib/modules/6/modules.dep", "/lib/modules/6/modules.dep"),
            file("/lib/modules/6/modules.alias", "/lib/modules/6/modules.alias"),
            file(
                "/lib/modules/6/kernel/fs/ext4.ko.xz",
                "/lib/modules/6/kernel/fs/ext4.ko.xz"
            ),
            ImageItem::OptionalFile("/etc/crypttab.initramfs".to_string()),
        ]
    );
    let plan = image_plan(InitramfsType::General, "/usr/lib/modules/6", "x", &Vec::new());
    assert_eq!(plan.len(), 7);
    assert_eq!(plan[0], program("x", "/init"));
    assert_eq!(
        plan[5],
        file("/usr/lib/modules/6/modules.dep", "/lib/modules/6/modules.dep")
    );
    assert_eq!(
        initrz_candidates(None),
        vec!["target/release/initrz", "/sbin/initrz"]
    );
    assert_eq!(
        initrz_candidates(Some("/opt/initrz")),
        vec!["/opt/initrz", "/sbin/initrz"]
    );
}

#[test]
fn libraries_to_read_next() {
    let metadata = FileMetadata { mode: 0o100755, mtime: 1, rdev: 0 };
    let mut image = Initramfs::new_basic_structure();
    image.add_file_with_path(b"x".to_vec(), &metadata, "/usr/lib/libc.so.6");
    let next = image.next_libraries(&lines(&[
        "/lib64/libc.so.6",
        "/lib64/libm.so.6",
        "/",
        "/opt/lib/libz.so.1",
        "/lib64/libm.so.6",
    ]));
    let program = |source: &str, destination: &str| ImageItem::Program {
        source: source.to_string(),
        destination: destination.to_string(),
    };
    assert_eq!(
        next,
        vec![
            program("/lib64/libm.so.6", "/usr/lib/libm.so.6"),
            program("/opt/lib/libz.so.1", "/usr/lib/libz.so.1"),
            program("/lib64/libm.so.6", "/usr/lib/libm.so.6"),
        ]
    );
    assert!(image.next_libraries(&Vec::new()).is_empty());
}

#[test]
fn same_files_same_image() {
    let files = || {
        vec![
            ReadFile {
                destination: "/init".to_string(),
                data: b"agent".to_vec(),
                metadata: FileMetadata { mode: 0o100755, mtime: 9, rdev: 0 },
            },
            ReadFile {
                destination: "/usr/lib/libc.so.6".to_string(),
                data: b"libc".to_vec(),
                metadata: FileMetadata { mode: 0o100644, mtime: 8, rdev: 0 },
            },
            ReadFile {
                destination: "/init".to_string(),
                data: b"second".to_vec(),
                metadata: FileMetadata { mode: 0o100755, mtime: 7, rdev: 0 },
            },
        ]
    };
    let build = |files: Vec<ReadFile>| {
        let mut image = Initramfs::new_basic_structure();
        image.add_files(&files);
        image.into_bytes().unwrap()
    };
    let first = build(files());
    assert_eq!(first, build(files()));
    let one_by_one = {
        let mut image = Initramfs::new_basic_structure();
        for file in files() {
            image.add_file_with_path(file.data, &file.metadata, &file.destination);
        }
        image.into_bytes().unwrap()
    };
    assert_eq!(first, one_by_one);
    let mut later = files();
    later[1].metadata.mtime = 10;
    assert_ne!(first, build(later));
}
