use initrz::module_loader::{
    decode_module, insertion_result, module_image, parse_module_alias, parse_module_alias_line,
    Compression, LoadError, LoadOutcome, ModuleLoader, EEXIST,
};
use std::io::Write;

fn lines(text: &[&str]) -> Vec<String> {
    text.iter().map(|s| s.to_string()).collect()
}

fn loader() -> ModuleLoader {
    ModuleLoader::init(
        "6.1.0",
        &lines(&[
            "kernel/net/qrtr/qrtr-mhi.ko.xz: kernel/net/qrtr/qrtr.ko.xz kernel/net/ipv4/ns.ko.xz kernel/drivers/bus/mhi/mhi.ko.xz",
            "kernel/net/qrtr/qrtr.ko.xz: kernel/net/ipv4/ns.ko.xz",
            "kernel/net/ipv4/ns.ko.xz:",
            "kernel/drivers/bus/mhi/mhi.ko.xz:",
            "kernel/drivers/video/nvidia-uvm.ko.xz: kernel/drivers/video/nvidia.ko.xz",
            "kernel/drivers/video/nvidia.ko.xz: kernel/builtin/missing.ko.xz",
            "/abs/elsewhere.ko.zst:",
        ]),
        &lines(&[
            "# Aliases extracted from modules themselves.",
            "alias pci:v00001234d* nvidia",
            "alias pci:v0000* qrtr-mhi",
            "alias usb:v[0-9]* mhi",
            "alias broken[ nvidia",
            "alias nomodule",
            "short",
            "alias virtio:d00000002v* virtio_blk",
        ]),
    )
}

fn loaded(outcome: LoadOutcome) -> Vec<String> {
    match outcome {
        LoadOutcome::Loaded(order) => order,
        LoadOutcome::Unknown => panic!("module is unknown"),
    }
}

#[test]
fn alias_lines() {
    let alias = parse_module_alias_line("alias pci:v00001234d* nvidia").unwrap();
    assert_eq!(alias.pattern(), "pci:v00001234d*");
    assert_eq!(alias.module(), "nvidia");
    assert!(alias.matches("pci:v00001234d5678sv0000"));
    assert!(!alias.matches("pci:v00001235d5678sv0000"));
    // the module is all that follows the first space
    let alias = parse_module_alias_line("alias a?c two words").unwrap();
    assert_eq!(alias.pattern(), "a?c");
    assert_eq!(alias.module(), "two words");
    assert!(alias.matches("abc"));
    assert!(!alias.matches("abcd"));
    // the first six characters are passed over, whatever they are
    let alias = parse_module_alias_line("ALIAS:x* y").unwrap();
    assert_eq!(alias.pattern(), "x*");
    assert_eq!(alias.module(), "y");
    // too short, no module, invalid pattern
    assert!(parse_module_alias_line("").is_none());
    assert!(parse_module_alias_line("alias").is_none());
    assert!(parse_module_alias_line("alias ").is_none());
    assert!(parse_module_alias_line("alias pattern").is_none());
    assert!(parse_module_alias_line("alias a[ m").is_none());
    assert!(parse_module_alias_line("alias a*** m").is_none());
    // an empty pattern is a pattern, and an empty module a module
    let alias = parse_module_alias_line("alias  m").unwrap();
    assert_eq!(alias.pattern(), "");
    assert_eq!(alias.module(), "m");
    let alias = parse_module_alias_line("alias p ").unwrap();
    assert_eq!(alias.module(), "");
}

#[test]
fn alias_file_keeps_order_and_drops_bad_lines() {
    let aliases = parse_module_alias(&lines(&[
        "alias pci:v00001234d* nvidia",
        "alias broken[ nvidia",
        "alias nomodule",
        "alias pci:* generic",
    ]));
    assert_eq!(aliases.len(), 2);
    assert_eq!(aliases[0].module(), "nvidia");
    assert_eq!(aliases[1].module(), "generic");
}

#[test]
fn modalias_finds_the_first_match() {
    let loader = loader();
    // the comment line of the file parses as a rule too, at index 0
    assert_eq!(loader.find_alias("pci:v00001234d5678sv00001234"), Some(1));
    assert_eq!(loader.find_alias("pci:v00009999d0000"), Some(2));
    assert_eq!(loader.find_alias("usb:v1234"), Some(3));
    assert_eq!(loader.find_alias("usb:vx"), None);
    assert_eq!(loader.find_alias("ses"), Some(0));
    assert_eq!(loader.find_alias("virtio:d00000002v00001AF4"), Some(4));
}

#[test]
fn lookups() {
    let loader = loader();
    let nvidia = loader.by_modalias("pci:v00001234d5678sv00001234").unwrap();
    assert_eq!(nvidia.filename, "kernel/drivers/video/nvidia.ko.xz");
    assert_eq!(
        loader.by_modalias("pci:v0000ffff").unwrap().deps,
        vec!["mhi", "ns", "qrtr"]
    );
    // no rule matches; the rule's module is not in the index
    assert!(loader.by_modalias("acpi:PNP0A03:").is_none());
    assert!(loader.by_modalias("virtio:d00000002v00001AF4").is_none());
    assert_eq!(loader.by_name("qrtr").unwrap().deps, vec!["ns"]);
    assert!(loader.by_name("virtio_blk").is_none());
}

#[test]
fn load_puts_dependencies_first() {
    let mut loader = loader();
    let order = loaded(loader.load_module("qrtr-mhi"));
    assert_eq!(order, vec!["mhi", "ns", "qrtr", "qrtr-mhi"]);
    for name in ["mhi", "ns", "qrtr", "qrtr-mhi"] {
        assert!(loader.is_loaded(name));
    }
    assert!(!loader.is_loaded("nvidia"));
}

#[test]
fn load_is_idempotent() {
    let mut loader = loader();
    let first = loaded(loader.load_module("nvidia-uvm"));
    assert_eq!(first, vec!["nvidia", "nvidia-uvm"]);
    let second = loaded(loader.load_module("nvidia-uvm"));
    assert!(second.is_empty());
    let dep = loaded(loader.load_module("nvidia"));
    assert!(dep.is_empty());
}

#[test]
fn loaded_dependencies_are_not_inserted_again() {
    let mut loader = loader();
    assert_eq!(loaded(loader.load_module("ns")), vec!["ns"]);
    assert_eq!(loaded(loader.load_module("qrtr-mhi")), vec!["mhi", "qrtr", "qrtr-mhi"]);
}

#[test]
fn marks_keep_their_order() {
    let mut loader = loader();
    assert!(loader.marked().is_empty());
    loaded(loader.load_module("ns"));
    loaded(loader.load_module("qrtr-mhi"));
    loaded(loader.load_module("nvidia"));
    assert_eq!(loader.marked(), vec!["ns", "mhi", "qrtr", "qrtr-mhi", "nvidia"]);
}

#[test]
fn a_failed_insertion_takes_the_marks_back() {
    let mut loader = loader();
    loaded(loader.load_module("ns"));
    assert_eq!(loaded(loader.load_module("qrtr-mhi")), vec!["mhi", "qrtr", "qrtr-mhi"]);
    // the insertion of `qrtr` fails: it and what was marked after it are unmarked
    assert_eq!(loader.insertion_failed("qrtr"), vec!["qrtr", "qrtr-mhi"]);
    assert_eq!(loader.marked(), vec!["ns", "mhi"]);
    assert!(loader.is_loaded("mhi"));
    assert!(!loader.is_loaded("qrtr"));
    assert!(!loader.is_loaded("qrtr-mhi"));
    // a later load asks for them again
    assert_eq!(loaded(loader.load_module("qrtr-mhi")), vec!["qrtr", "qrtr-mhi"]);
    // a name that is not marked changes nothing
    assert!(loader.insertion_failed("nvidia").is_empty());
    assert!(loader.insertion_failed("no such module").is_empty());
    assert_eq!(loader.marked(), vec!["ns", "mhi", "qrtr", "qrtr-mhi"]);
    // the first mark of all
    assert_eq!(loader.insertion_failed("ns"), vec!["ns", "mhi", "qrtr", "qrtr-mhi"]);
    assert!(loader.marked().is_empty());
    assert!(!loader.is_loaded("ns"));
}

#[test]
fn unknown_modules() {
    let mut loader = loader();
    assert!(matches!(loader.load_module("ext4"), LoadOutcome::Unknown));
    assert!(!loader.is_loaded("ext4"));
    // a dependency that the index lacks is passed over
    assert_eq!(loaded(loader.load_module("nvidia")), vec!["nvidia"]);
    assert!(!loader.is_loaded("missing"));
}

#[test]
fn cycles_end() {
    let mut loader = ModuleLoader::init(
        "x",
        &lines(&["k/a.ko: k/b.ko", "k/b.ko: k/c.ko k/a.ko", "k/c.ko: k/c.ko"]),
        &Vec::new(),
    );
    assert_eq!(loaded(loader.load_module("a")), vec!["c", "b", "a"]);
}

#[test]
fn load_by_modalias() {
    let mut loader = loader();
    assert_eq!(
        loader.load_modalias("pci:v00001234d5678sv00001234"),
        vec!["nvidia"]
    );
    assert!(loader.load_modalias("pci:v00001234d5678sv00001234").is_empty());
    // no rule matches
    assert!(loader.load_modalias("acpi:PNP0A03:").is_empty());
    // the rule's module is not in the index
    assert!(loader.load_modalias("virtio:d00000002v00001AF4").is_empty());
    assert!(!loader.is_loaded("virtio_blk"));
    assert_eq!(
        loader.load_modalias("pci:v0000ffff"),
        vec!["mhi", "ns", "qrtr", "qrtr-mhi"]
    );
}

#[test]
fn module_files() {
    let loader = loader();
    assert_eq!(
        loader.module_file("nvidia"),
        Some("/lib/modules/6.1.0/kernel/drivers/video/nvidia.ko.xz".to_string())
    );
    assert_eq!(
        loader.module_file("elsewhere"),
        Some("/abs/elsewhere.ko.zst".to_string())
    );
    assert_eq!(loader.module_file("ext4"), None);
}

#[test]
fn xz_modules_are_unpacked() {
    let payload = b"\x7fELF module payload, module payload, module payload".to_vec();
    let mut encoder = xz2::write::XzEncoder::new(Vec::new(), 6);
    encoder.write_all(&payload).unwrap();
    let blob = encoder.finish().unwrap();
    assert_ne!(blob, payload);
    assert_eq!(decode_module(&blob), Ok(Some(payload)));
}

#[test]
fn zstd_modules_are_unpacked() {
    let payload = b"\x7fELF another payload, another payload, another payload".to_vec();
    let blob = zstd::stream::encode_all(&payload[..], 3).unwrap();
    assert_ne!(blob, payload);
    assert_eq!(decode_module(&blob), Ok(Some(payload)));
}

#[test]
fn unknown_formats_are_passed_over() {
    assert_eq!(decode_module(b"\x7fELF not compressed at all"), Ok(None));
    assert_eq!(decode_module(b""), Ok(None));
}

#[test]
fn corrupt_streams_fail() {
    let mut blob = vec![0xfd, b'7', b'z', b'X', b'Z', 0x00];
    blob.extend_from_slice(&[0x55; 40]);
    assert_eq!(decode_module(&blob), Err(LoadError::DecompressFailed));
    let mut blob = vec![0x28, 0xb5, 0x2f, 0xfd];
    blob.extend_from_slice(&[0xff; 40]);
    assert_eq!(decode_module(&blob), Err(LoadError::DecompressFailed));
}

#[test]
fn images() {
    assert_eq!(module_image(Compression::Unknown, Some(vec![1])), Ok(None));
    assert_eq!(module_image(Compression::Unknown, None), Ok(None));
    assert_eq!(module_image(Compression::Xz, Some(vec![1, 2])), Ok(Some(vec![1, 2])));
    assert_eq!(module_image(Compression::Xz, None), Err(LoadError::DecompressFailed));
    assert_eq!(module_image(Compression::Zstandard, Some(vec![])), Ok(Some(vec![])));
    assert_eq!(
        module_image(Compression::Zstandard, None),
        Err(LoadError::DecompressFailed)
    );
}

#[test]
fn kernel_answers() {
    assert_eq!(insertion_result(None), Ok(()));
    assert_eq!(insertion_result(Some(EEXIST)), Ok(()));
    assert_eq!(insertion_result(Some(17)), Ok(()));
    assert_eq!(insertion_result(Some(8)), Err(LoadError::ModuleLoadFailed(8)));
    assert_eq!(insertion_result(Some(0)), Err(LoadError::ModuleLoadFailed(0)));
}
