//! The module files of a kernel's module directory, by name.

use crate::initramfs_modules::{is_module_needed, selected, set_of};
use crate::initramfs_type::InitramfsType;
use crate::module_loader::{xz_decode, xz_decoded, LoadError};
use crate::modules::{get_module_name, module_name};
use crate::path::{file_name, file_name_range, join, joined, stem_len, stem_of};
use crate::text::{chars_of, last_index_of, rfind_char, slice_eq, str_eq, strip_prefix, views};
use vstd::prelude::*;
use vstd::slice::*;
use vstd::string::*;

verus! {

/// A kernel module and the file that holds it.
#[derive(Debug, PartialEq, Eq)]
pub struct Module {
    pub name: String,
    pub path: String,
}

/// What a `Module` holds, as mathematical values.
pub struct ModuleFile {
    pub name: Seq<char>,
    pub path: Seq<char>,
}

impl View for Module {
    type V = ModuleFile;

    open spec fn view(&self) -> ModuleFile {
        ModuleFile { name: self.name@, path: self.path@ }
    }
}

impl Module {
    /// The module `name` in the file at `path`.
    pub fn new(name: String, path: &str) -> (r: Module)
        ensures
            r@ == (ModuleFile { name: name@, path: path@ }),
    {
        Module { name, path: String::from_str(path) }
    }

    /// The module itself, unpacked from `compressed`, the contents of its file.
    pub fn into_bytes(&self, compressed: &[u8]) -> (r: Result<Vec<u8>, LoadError>)
        ensures
            match r {
                Ok(data) => xz_decoded(compressed@) == Some(data@),
                Err(e) => xz_decoded(compressed@) is None && e == LoadError::DecompressFailed,
            },
    {
        match xz_decode(compressed) {
            Some(data) => Ok(data),
            None => Err(LoadError::DecompressFailed),
        }
    }
}

/// The extension of the file name `name`: what stands behind its last `.`, unless it
/// holds none or only one at its start.
pub open spec fn extension_of(name: Seq<char>) -> Option<Seq<char>> {
    let dot = last_index_of(name, '.');
    if dot <= 0 {
        None
    } else {
        Some(name.skip(dot + 1))
    }
}

/// Whether the file at `path` is a module packed with xz: its name ends in `.ko.xz`,
/// behind a stem.
pub open spec fn is_module_file(path: Seq<char>) -> bool {
    match file_name(path) {
        Some(name) => extension_of(name) == Some("xz"@) && extension_of(stem_of(name)) == Some(
            "ko"@,
        ),
        None => false,
    }
}

/// Whether the extension of `name` is `ext`.
fn has_extension(name: &[char], ext: &str) -> (r: bool)
    ensures
        r == (extension_of(name@) == Some(ext@)),
{
    match rfind_char(name, '.') {
        Some(dot) => if dot == 0 {
            false
        } else {
            let tail = slice_subrange(name, dot + 1, name.len());
            assert(tail@ == name@.skip(dot + 1));
            let wanted = chars_of(ext);
            slice_eq(tail, wanted.as_slice())
        },
        None => false,
    }
}

/// Whether the file at `path` is a module packed with xz.
pub fn is_module(path: &str) -> (r: bool)
    ensures
        r == is_module_file(path@),
{
    let chars = chars_of(path);
    match file_name_range(chars.as_slice()) {
        Some((from, to)) => {
            let name = slice_subrange(chars.as_slice(), from, to);
            if !has_extension(name, "xz") {
                return false;
            }
            let stem = slice_subrange(name, 0, stem_len(name));
            has_extension(stem, "ko")
        },
        None => false,
    }
}

/// The index of the first of `modules` with the name `name`, or their number.
pub open spec fn position(modules: Seq<ModuleFile>, name: Seq<char>) -> int
    decreases modules.len(),
{
    if modules.len() == 0 {
        0
    } else if modules[0].name == name {
        0
    } else {
        1 + position(modules.drop_first(), name)
    }
}

/// The modules among `files`, each with its name: in the order in which the names
/// first occur, and of two files for one name the later one.
pub open spec fn modules_of(files: Seq<Seq<char>>) -> Seq<ModuleFile>
    decreases files.len(),
{
    if files.len() == 0 {
        Seq::empty()
    } else {
        let before = modules_of(files.drop_last());
        let file = files.last();
        match module_name(file) {
            Some(name) => if !is_module_file(file) {
                before
            } else if position(before, name) < before.len() {
                before.update(position(before, name), ModuleFile { name, path: file })
            } else {
                before.push(ModuleFile { name, path: file })
            },
            None => before,
        }
    }
}

/// The views of `modules`, in order.
pub open spec fn module_views(modules: Seq<Module>) -> Seq<ModuleFile> {
    modules.map_values(|m: Module| m@)
}

/// `position` is within bounds, nothing before it has the name, and the name stands
/// there.
proof fn lemma_position(modules: Seq<ModuleFile>, name: Seq<char>, i: int)
    requires
        0 <= i <= modules.len(),
        forall|k: int| 0 <= k < i ==> (#[trigger] modules[k]).name != name,
        i < modules.len() ==> modules[i].name == name,
    ensures
        position(modules, name) == i,
    decreases modules.len(),
{
    if modules.len() > 0 && modules[0].name != name {
        let rest = modules.drop_first();
        assert forall|k: int| 0 <= k < i - 1 implies (#[trigger] rest[k]).name != name by {
            assert(rest[k] == modules[k + 1]);
        }
        lemma_position(rest, name, i - 1);
    }
}

/// The modules among `files`, the files found below a kernel's module directory, each
/// with its name.
pub fn list_modules(files: &Vec<String>) -> (r: Vec<Module>)
    ensures
        module_views(r@) == modules_of(views(files@)),
{
    let ghost all = views(files@);
    let mut out: Vec<Module> = Vec::new();
    let mut i: usize = 0;
    assert(all.take(0) == Seq::<Seq<char>>::empty());
    assert(module_views(out@) == Seq::<ModuleFile>::empty());
    while i < files.len()
        invariant
            i <= files@.len(),
            all == views(files@),
            module_views(out@) == modules_of(all.take(i as int)),
        decreases files@.len() - i,
    {
        assert(all.take(i + 1).drop_last() == all.take(i as int));
        assert(all.take(i + 1).last() == files@[i as int]@);
        let file = files[i].as_str();
        match get_module_name(file) {
            Some(name) => if is_module(file) {
                let ghost before = module_views(out@);
                let mut j: usize = 0;
                while j < out.len() && !str_eq(out[j].name.as_str(), name.as_str())
                    invariant
                        j <= out@.len(),
                        before == module_views(out@),
                        forall|k: int| 0 <= k < j ==> (#[trigger] before[k]).name != name@,
                    decreases out@.len() - j,
                {
                    assert(before[j as int] == out@[j as int]@);
                    j = j + 1;
                }
                proof {
                    if j < out@.len() {
                        assert(before[j as int] == out@[j as int]@);
                    }
                    lemma_position(before, name@, j as int);
                }
                let module = Module::new(name, file);
                if j < out.len() {
                    out.set(j, module);
                    assert(module_views(out@) == before.update(j as int, module@));
                } else {
                    out.push(module);
                    assert(module_views(out@) == before.push(module@));
                }
            },
            None => {},
        }
        i = i + 1;
    }
    assert(all.take(i as int) == all);
    out
}

/// The path of the file `path` from the kernel's module directory `kroot`; `path`
/// itself where the file does not lie below the directory.
pub open spec fn path_below(kroot: Seq<char>, path: Seq<char>) -> Seq<char> {
    let base = joined(kroot, ""@);
    if base.is_prefix_of(path) {
        path.skip(base.len() as int)
    } else {
        path
    }
}

/// Those of `modules` that an image of the profile `kind` takes, in their order: the
/// modules that the user asks for by the names `additional`; of the others a general
/// image takes what serves to find and mount the root device, and a host image of
/// that what is among the loaded modules `host`.
pub open spec fn chosen(
    kind: InitramfsType,
    kroot: Seq<char>,
    modules: Seq<ModuleFile>,
    additional: Seq<Seq<char>>,
    host: Seq<Seq<char>>,
) -> Seq<ModuleFile>
    decreases modules.len(),
{
    if modules.len() == 0 {
        Seq::empty()
    } else {
        let before = chosen(kind, kroot, modules.drop_last(), additional, host);
        let m = modules.last();
        if selected(kind, m.name, path_below(kroot, m.path), additional, host) {
            before.push(m)
        } else {
            before
        }
    }
}

/// The path of the file `path` from the kernel's module directory `kroot`.
fn relative_path(kroot: &str, path: &str) -> (r: String)
    ensures
        r@ == path_below(kroot@, path@),
{
    let base = join(kroot, "");
    match strip_prefix(path, base.as_str()) {
        Some(rest) => rest,
        None => String::from_str(path),
    }
}

/// Those of the modules among `files` that an image of the profile `kind` takes.
pub fn common_modules_gen(
    kind: InitramfsType,
    kroot: &str,
    files: &Vec<String>,
    additional_modules: &Vec<String>,
    host_modules: &Vec<String>,
) -> (r: Vec<Module>)
    ensures
        module_views(r@) == chosen(
            kind,
            kroot@,
            modules_of(views(files@)),
            views(additional_modules@),
            views(host_modules@),
        ),
{
    let modules = list_modules(files);
    let additional = set_of(additional_modules);
    let host = set_of(host_modules);
    let ghost all = module_views(modules@);
    let ghost wanted = views(additional_modules@);
    let ghost loaded = views(host_modules@);
    let mut out: Vec<Module> = Vec::new();
    let mut i: usize = 0;
    assert(all.take(0) == Seq::<ModuleFile>::empty());
    assert(module_views(out@) == Seq::<ModuleFile>::empty());
    while i < modules.len()
        invariant
            i <= modules@.len(),
            all == module_views(modules@),
            forall|x: Seq<char>| additional@.contains(x) <==> wanted.contains(x),
            forall|x: Seq<char>| host@.contains(x) <==> loaded.contains(x),
            module_views(out@) == chosen(kind, kroot@, all.take(i as int), wanted, loaded),
        decreases modules@.len() - i,
    {
        assert(all.take(i + 1).drop_last() == all.take(i as int));
        assert(all.take(i + 1).last() == modules@[i as int]@);
        let name = modules[i].name.as_str();
        let rel = relative_path(kroot, modules[i].path.as_str());
        let take = additional.contains(name) || match kind {
            InitramfsType::General => is_module_needed(name, rel.as_str()),
            InitramfsType::Host => host.contains(name) && is_module_needed(name, rel.as_str()),
        };
        if take {
            let module = Module::new(modules[i].name.clone(), modules[i].path.as_str());
            let ghost before = module_views(out@);
            out.push(module);
            assert(module_views(out@) == before.push(module@));
        }
        i = i + 1;
    }
    assert(all.take(i as int) == all);
    out
}

/// The modules of a general image, among `files`, the files found below the kernel's
/// module directory `kroot`: what serves to find and mount the root device, and what
/// the user asks for by the names `additional_modules`.
pub fn get_general_modules(kroot: &str, files: &Vec<String>, additional_modules: Vec<String>) -> (r:
    Vec<Module>)
    ensures
        module_views(r@) == chosen(
            InitramfsType::General,
            kroot@,
            modules_of(views(files@)),
            views(additional_modules@),
            Seq::empty(),
        ),
{
    let none: Vec<String> = Vec::new();
    assert(views(none@) == Seq::<Seq<char>>::empty());
    common_modules_gen(InitramfsType::General, kroot, files, &additional_modules, &none)
}

/// The modules of a host image, among `files`, the files found below the kernel's
/// module directory `kroot`: of what a general image takes, the modules with the names
/// `host_modules`, which are loaded now, and what the user asks for by the names
/// `additional_modules`.
pub fn get_host_modules(
    kroot: &str,
    files: &Vec<String>,
    additional_modules: Vec<String>,
    host_modules: &Vec<String>,
) -> (r: Vec<Module>)
    ensures
        module_views(r@) == chosen(
            InitramfsType::Host,
            kroot@,
            modules_of(views(files@)),
            views(additional_modules@),
            views(host_modules@),
        ),
{
    common_modules_gen(InitramfsType::Host, kroot, files, &additional_modules, host_modules)
}

} // verus!
