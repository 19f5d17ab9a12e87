use initrz::path::{file_name_range, join, stem_len};
use initrz::text::{
    char_is_whitespace, chars_of, contains, find_char, has_prefix, rfind_char, slice_eq,
    split_whitespace, starts_with, str_eq, strip_prefix, trim,
};

fn chars(s: &str) -> Vec<char> {
    s.chars().collect()
}

#[test]
fn whitespace_is_what_unicode_says() {
    for code in 0..=0x10ffffu32 {
        if let Some(c) = char::from_u32(code) {
            assert_eq!(char_is_whitespace(c), c.is_whitespace(), "U+{:04X}", code);
        }
    }
}

#[test]
fn characters_and_substrings() {
    assert_eq!(chars_of("aé\u{1f600}z"), vec!['a', 'é', '\u{1f600}', 'z']);
    assert!(chars_of("").is_empty());
    assert!(str_eq("abc", "abc"));
    assert!(!str_eq("abc", "abd"));
    assert!(!str_eq("abc", "ab"));
    assert!(str_eq("", ""));
    assert!(slice_eq(&chars("xy"), &chars("xy")));
    assert!(!slice_eq(&chars("xy"), &chars("yx")));
}

#[test]
fn searching() {
    assert_eq!(find_char(&chars("a:b:c"), ':'), 1);
    assert_eq!(find_char(&chars("abc"), ':'), 3);
    assert_eq!(find_char(&chars(""), ':'), 0);
    assert_eq!(rfind_char(&chars("a:b:c"), ':'), Some(3));
    assert_eq!(rfind_char(&chars(":"), ':'), Some(0));
    assert_eq!(rfind_char(&chars("abc"), ':'), None);
    assert!(starts_with(&chars("kernel/fs"), &chars("kernel/")));
    assert!(starts_with(&chars("kernel/"), &chars("kernel/")));
    assert!(starts_with(&chars("x"), &chars("")));
    assert!(!starts_with(&chars("kernel"), &chars("kernel/")));
    assert!(!starts_with(&chars("xkernel/"), &chars("kernel/")));
    assert!(contains(&chars("drivers/scsi/sd.ko"), &chars("scsi")));
    assert!(contains(&chars("scsi"), &chars("scsi")));
    assert!(contains(&chars("xscsi"), &chars("scsi")));
    assert!(contains(&chars("abc"), &chars("")));
    assert!(contains(&chars(""), &chars("")));
    assert!(!contains(&chars("scs"), &chars("scsi")));
    assert!(!contains(&chars("s-c-s-i"), &chars("scsi")));
    assert!(has_prefix("root=/dev/sda", "root="));
    assert!(!has_prefix("root", "root="));
    assert_eq!(strip_prefix("root=/dev/sda", "root="), Some("/dev/sda".to_string()));
    assert_eq!(strip_prefix("root=", "root="), Some(String::new()));
    assert_eq!(strip_prefix("roo", "root="), None);
    assert_eq!(strip_prefix("é=x", "é="), Some("x".to_string()));
}

#[test]
fn words_and_trimming() {
    assert_eq!(split_whitespace("  a  bc\td\n"), vec!["a", "bc", "d"]);
    assert_eq!(split_whitespace("one"), vec!["one"]);
    assert!(split_whitespace("").is_empty());
    assert!(split_whitespace(" \t\r\n").is_empty());
    for text in ["", " ", "a", " a", "a ", " a b ", "\u{2003}x\u{a0}y\u{3000}", "é è"] {
        let expected: Vec<String> = text.split_whitespace().map(|s| s.to_string()).collect();
        assert_eq!(split_whitespace(text), expected, "{:?}", text);
        assert_eq!(trim(text), text.trim(), "{:?}", text);
    }
    assert_eq!(trim("  a b \n"), "a b");
}

#[test]
fn file_names() {
    let name = |p: &str| file_name_range(&chars(p)).map(|(a, b)| p[a..b].to_string());
    for path in [
        "", "/", "//", ".", "..", "a", "a/", "a//", "a/.", "a/./", "a/..", "/a", "/a/b", "./a",
        "a/b/c.d", "/.", "/..", "./.", "a/.b", "a/b/../c", ".../x", "x/...",
    ] {
        let expected = std::path::Path::new(path)
            .file_name()
            .map(|n| n.to_str().unwrap().to_string());
        assert_eq!(name(path), expected, "{:?}", path);
    }
    let stem = |n: &str| n[..stem_len(&chars(n))].to_string();
    for file in ["a", "a.b", "a.b.c", ".a", ".a.b", "a.", "a..", "..a", "..."] {
        let expected = std::path::Path::new(file)
            .file_stem()
            .map(|n| n.to_str().unwrap().to_string())
            .unwrap();
        assert_eq!(stem(file), expected, "{:?}", file);
    }
}

#[test]
fn joined_paths() {
    for (base, rel) in [
        ("/lib/modules", "6.1.0"),
        ("/lib/modules/", "6.1.0"),
        ("/lib/modules", "/abs/x"),
        ("", "x"),
        ("", "/x"),
        ("a", ""),
        ("a/", ""),
        ("/", "x"),
        ("a", "b/c"),
    ] {
        let expected = std::path::Path::new(base).join(rel);
        assert_eq!(join(base, rel), expected.to_str().unwrap(), "{:?} {:?}", base, rel);
    }
}
