//! Which kernel modules go into an image.

use crate::error::Error;
use crate::initramfs_type::InitramfsType;
use crate::modules::{get_module_name, module_name};
use crate::path::{join, joined};
use crate::text::{
    chars_of, contains, find_char, has_substring, index_of, split_whitespace, starts_with,
    str_eq, substring, views, words,
};
use vstd::hash_set::StringHashSet;
use vstd::prelude::*;
use vstd::slice::*;
use vstd::string::*;

verus! {

/// Whether the path `rel` of a module below `kernel/` holds one of the words that mark
/// a driver for block devices.
pub open spec fn is_block_driver(rel: Seq<char>) -> bool {
    has_substring(rel, "sd_mod"@) || has_substring(rel, "sr_mod"@) || has_substring(
        rel,
        "usb_storage"@,
    ) || has_substring(rel, "firewire-sbp2"@) || has_substring(rel, "block"@) || has_substring(
        rel,
        "scsi"@,
    ) || has_substring(rel, "fusion"@) || has_substring(rel, "nvme"@) || has_substring(
        rel,
        "mmc"@,
    ) || has_substring(rel, "tifm_"@) || has_substring(rel, "virtio"@) || has_substring(
        rel,
        "drivers/ata/"@,
    ) || has_substring(rel, "drivers/usb/host/"@) || has_substring(rel, "drivers/usb/storage/"@)
        || has_substring(rel, "drivers/firewire/"@)
}

/// Whether a general image takes the module `name` whose file is `path`. A file that is
/// not below `kernel/` is not taken. Of the others, taken are file systems but not
/// their character sets, what serves disk encryption and the device mapper, drivers
/// for block devices, and drivers for keyboards.
pub open spec fn module_needed(name: Seq<char>, path: Seq<char>) -> bool {
    "kernel/"@.is_prefix_of(path) && {
        let rel = path.skip("kernel/"@.len() as int);
        ||| "fs/"@.is_prefix_of(rel) && !"fs/nls/"@.is_prefix_of(rel)
        ||| "crypto/"@.is_prefix_of(rel)
        ||| name == "dm-crypt"@
        ||| name == "dm-integrity"@
        ||| "drivers/md/"@.is_prefix_of(rel)
        ||| "lib/"@.is_prefix_of(rel)
        ||| is_block_driver(rel)
        ||| "drivers/hid/"@.is_prefix_of(rel)
        ||| "drivers/input/keyboard/"@.is_prefix_of(rel)
        ||| "drivers/input/serio/"@.is_prefix_of(rel)
        ||| "usbhid"@.is_prefix_of(rel)
    }
}

/// Whether `s` starts with `prefix`.
fn begins(s: &[char], prefix: &str) -> (r: bool)
    ensures
        r == prefix@.is_prefix_of(s@),
{
    let head = chars_of(prefix);
    starts_with(s, head.as_slice())
}

/// Whether `word` occurs in `s`.
fn holds(s: &[char], word: &str) -> (r: bool)
    ensures
        r == has_substring(s@, word@),
{
    let needle = chars_of(word);
    contains(s, needle.as_slice())
}

/// Whether a general image takes the module `name` whose file is `path`.
pub fn is_module_needed(name: &str, path: &str) -> (r: bool)
    ensures
        r == module_needed(name@, path@),
{
    let chars = chars_of(path);
    let prefix = chars_of("kernel/");
    if !starts_with(chars.as_slice(), prefix.as_slice()) {
        return false;
    }
    let rel = slice_subrange(chars.as_slice(), prefix.len(), chars.len());
    assert(rel@ == path@.skip("kernel/"@.len() as int));
    if begins(rel, "fs/") && !begins(rel, "fs/nls/") {
        return true;  // file systems
    }
    if begins(rel, "crypto/") || str_eq(name, "dm-crypt") || str_eq(name, "dm-integrity") {
        return true;  // disk encryption
    }
    if begins(rel, "drivers/md/") || begins(rel, "lib/") {
        return true;  // device mapper
    }
    if holds(rel, "sd_mod") || holds(rel, "sr_mod") || holds(rel, "usb_storage") || holds(
        rel,
        "firewire-sbp2",
    ) || holds(rel, "block") || holds(rel, "scsi") || holds(rel, "fusion") || holds(rel, "nvme")
        || holds(rel, "mmc") || holds(rel, "tifm_") || holds(rel, "virtio") || holds(
        rel,
        "drivers/ata/",
    ) || holds(rel, "drivers/usb/host/") || holds(rel, "drivers/usb/storage/") || holds(
        rel,
        "drivers/firewire/",
    ) {
        return true;  // block devices
    }
    if begins(rel, "drivers/hid/") || begins(rel, "drivers/input/keyboard/") || begins(
        rel,
        "drivers/input/serio/",
    ) || begins(rel, "usbhid") {
        return true;  // keyboard input
    }
    false
}

/// The file of a line of `modules.dep`: what stands before its first colon.
pub open spec fn file_of_line(line: Seq<char>) -> Seq<char> {
    line.take(index_of(line, ':'))
}

/// The modules that the lines of a `modules.dep` list, each with its name and its file,
/// in the order of the lines; nothing where a line names no module.
pub open spec fn listed_modules(lines: Seq<Seq<char>>) -> Option<Seq<(Seq<char>, Seq<char>)>>
    decreases lines.len(),
{
    if lines.len() == 0 {
        Some(Seq::empty())
    } else {
        match (listed_modules(lines.drop_last()), module_name(file_of_line(lines.last()))) {
            (Some(before), Some(name)) => Some(before.push((name, file_of_line(lines.last())))),
            _ => None,
        }
    }
}

/// The names and files of `modules`, in order.
pub open spec fn pair_views(modules: Seq<(String, String)>) -> Seq<(Seq<char>, Seq<char>)> {
    modules.map_values(|m: (String, String)| (m.0@, m.1@))
}

/// The modules that the lines of a `modules.dep` list, each with its name and its file.
/// A line that names no module is an error.
pub fn get_all_modules(dep_lines: &Vec<String>) -> (r: Result<Vec<(String, String)>, Error>)
    ensures
        match r {
            Ok(modules) => listed_modules(views(dep_lines@)) == Some(pair_views(modules@)),
            Err(e) => listed_modules(views(dep_lines@)) is None && e == Error::ModuleName,
        },
{
    let mut out: Vec<(String, String)> = Vec::new();
    let mut i: usize = 0;
    assert(views(dep_lines@).take(0) == Seq::<Seq<char>>::empty());
    assert(pair_views(out@) == Seq::<(Seq<char>, Seq<char>)>::empty());
    while i < dep_lines.len()
        invariant
            i <= dep_lines@.len(),
            listed_modules(views(dep_lines@).take(i as int)) == Some(pair_views(out@)),
        decreases dep_lines@.len() - i,
    {
        let ghost prefix = views(dep_lines@).take(i + 1);
        assert(prefix.drop_last() == views(dep_lines@).take(i as int));
        assert(prefix.last() == dep_lines@[i as int]@);
        let line = dep_lines[i].as_str();
        let chars = chars_of(line);
        let colon: usize = find_char(chars.as_slice(), ':');
        let file = substring(line, 0, colon);
        assert(file@ == file_of_line(line@));
        match get_module_name(file.as_str()) {
            Some(name) => {
                let ghost before = pair_views(out@);
                out.push((name, file));
                assert(pair_views(out@) == before.push((name@, file@)));
            },
            None => {
                proof {
                    lemma_listed_none_extends(views(dep_lines@), i + 1);
                }
                return Err(Error::ModuleName);
            },
        }
        i = i + 1;
    }
    assert(views(dep_lines@).take(i as int) == views(dep_lines@));
    Ok(out)
}

/// Lines of which the first `n` list no modules list none.
proof fn lemma_listed_none_extends(lines: Seq<Seq<char>>, n: int)
    requires
        0 <= n <= lines.len(),
        listed_modules(lines.take(n)) is None,
    ensures
        listed_modules(lines) is None,
    decreases lines.len() - n,
{
    if n < lines.len() {
        assert(lines.take(n + 1).drop_last() == lines.take(n));
        lemma_listed_none_extends(lines, n + 1);
    } else {
        assert(lines.take(n) == lines);
    }
}

/// The names of the modules that the lines of `/proc/modules` list: the first word of
/// each line that has one.
pub open spec fn host_modules(lines: Seq<Seq<char>>) -> Seq<Seq<char>>
    decreases lines.len(),
{
    if lines.len() == 0 {
        Seq::empty()
    } else if words(lines.last()).len() > 0 {
        host_modules(lines.drop_last()).push(words(lines.last())[0])
    } else {
        host_modules(lines.drop_last())
    }
}

/// The names of the modules that are loaded now, from the lines of `/proc/modules`.
pub fn get_host_modules(lines: &Vec<String>) -> (r: Vec<String>)
    ensures
        views(r@) == host_modules(views(lines@)),
{
    let mut out: Vec<String> = Vec::new();
    let mut i: usize = 0;
    assert(views(lines@).take(0) == Seq::<Seq<char>>::empty());
    assert(views(out@) == Seq::<Seq<char>>::empty());
    while i < lines.len()
        invariant
            i <= lines@.len(),
            views(out@) == host_modules(views(lines@).take(i as int)),
        decreases lines@.len() - i,
    {
        let ghost prefix = views(lines@).take(i + 1);
        assert(prefix.drop_last() == views(lines@).take(i as int));
        assert(prefix.last() == lines@[i as int]@);
        let fields = split_whitespace(lines[i].as_str());
        if fields.len() > 0 {
            assert(views(fields@)[0] == fields@[0]@);
            let ghost before = views(out@);
            let name = fields[0].clone();
            out.push(name);
            assert(views(out@) == before.push(name@));
        }
        i = i + 1;
    }
    assert(views(lines@).take(i as int) == views(lines@));
    out
}

/// Whether an image of the profile `kind` takes the module `name` whose file is `path`:
/// a module that the user asks for is taken; a general image takes what
/// `module_needed` says, and a host image of that what is loaded now.
pub open spec fn selected(
    kind: InitramfsType,
    name: Seq<char>,
    path: Seq<char>,
    additional: Seq<Seq<char>>,
    host: Seq<Seq<char>>,
) -> bool {
    additional.contains(name) || match kind {
        InitramfsType::General => module_needed(name, path),
        InitramfsType::Host => host.contains(name) && module_needed(name, path),
    }
}

/// The files of those of `modules` that the image takes, each below `kroot`, in the
/// order of `modules`.
pub open spec fn selection(
    kind: InitramfsType,
    kroot: Seq<char>,
    modules: Seq<(Seq<char>, Seq<char>)>,
    additional: Seq<Seq<char>>,
    host: Seq<Seq<char>>,
) -> Seq<Seq<char>>
    decreases modules.len(),
{
    if modules.len() == 0 {
        Seq::empty()
    } else {
        let before = selection(kind, kroot, modules.drop_last(), additional, host);
        let (name, path) = modules.last();
        if selected(kind, name, path, additional, host) {
            before.push(joined(kroot, path))
        } else {
            before
        }
    }
}

/// The set of the strings of `names`.
pub(crate) fn set_of(names: &Vec<String>) -> (r: StringHashSet)
    ensures
        forall|x: Seq<char>| r@.contains(x) <==> views(names@).contains(x),
{
    let mut set = StringHashSet::new();
    let mut i: usize = 0;
    while i < names.len()
        invariant
            i <= names@.len(),
            forall|x: Seq<char>| set@.contains(x) <==> views(names@).take(i as int).contains(x),
        decreases names@.len() - i,
    {
        let ghost before = views(names@).take(i as int);
        let ghost after = views(names@).take(i + 1);
        assert(after == before.push(names@[i as int]@));
        set.insert(names[i].clone());
        assert forall|x: Seq<char>| set@.contains(x) <==> after.contains(x) by {
            if before.contains(x) {
                let k = choose|k: int| 0 <= k < before.len() && before[k] == x;
                assert(after[k] == x);
            }
            if after.contains(x) {
                let k = choose|k: int| 0 <= k < after.len() && after[k] == x;
                if k < before.len() {
                    assert(before[k] == x);
                }
            }
            assert(after[i as int] == names@[i as int]@);
        }
        i = i + 1;
    }
    assert(views(names@).take(i as int) == views(names@));
    set
}

/// The files of the modules that an image of the profile `initramfs_type` takes, each
/// below the kernel's module directory `kroot`. `dep_lines` are the lines of the
/// kernel's `modules.dep`, `host_lines` those of `/proc/modules`, which only a host
/// image looks at, and `additional_modules` the names that the user asks for.
pub fn get_modules(
    initramfs_type: InitramfsType,
    kroot: &str,
    additional_modules: Vec<String>,
    dep_lines: &Vec<String>,
    host_lines: &Vec<String>,
) -> (r: Result<Vec<String>, Error>)
    ensures
        match r {
            Ok(files) => listed_modules(views(dep_lines@)) matches Some(modules) && views(files@)
                == selection(
                initramfs_type,
                kroot@,
                modules,
                views(additional_modules@),
                host_modules(views(host_lines@)),
            ),
            Err(e) => listed_modules(views(dep_lines@)) is None && e == Error::ModuleName,
        },
{
    let additional = set_of(&additional_modules);
    let modules = match get_all_modules(dep_lines) {
        Ok(modules) => modules,
        Err(e) => {
            return Err(e);
        },
    };
    let host_names = get_host_modules(host_lines);
    let host = set_of(&host_names);
    let ghost all = pair_views(modules@);
    let ghost wanted = views(additional_modules@);
    let ghost loaded = host_modules(views(host_lines@));
    let mut out: Vec<String> = Vec::new();
    let mut i: usize = 0;
    assert(all.take(0) == Seq::<(Seq<char>, Seq<char>)>::empty());
    assert(views(out@) == Seq::<Seq<char>>::empty());
    while i < modules.len()
        invariant
            i <= modules@.len(),
            all == pair_views(modules@),
            forall|x: Seq<char>| additional@.contains(x) <==> wanted.contains(x),
            forall|x: Seq<char>| host@.contains(x) <==> loaded.contains(x),
            views(out@) == selection(initramfs_type, kroot@, all.take(i as int), wanted, loaded),
        decreases modules@.len() - i,
    {
        assert(all.take(i + 1).drop_last() == all.take(i as int));
        assert(all.take(i + 1).last() == (modules@[i as int].0@, modules@[i as int].1@));
        let name = modules[i].0.as_str();
        let path = modules[i].1.as_str();
        let take = additional.contains(name) || match initramfs_type {
            InitramfsType::General => is_module_needed(name, path),
            InitramfsType::Host => host.contains(name) && is_module_needed(name, path),
        };
        if take {
            let file = join(kroot, path);
            let ghost before = views(out@);
            out.push(file);
            assert(views(out@) == before.push(file@));
        }
        i = i + 1;
    }
    assert(all.take(i as int) == all);
    Ok(out)
}

} // verus!
