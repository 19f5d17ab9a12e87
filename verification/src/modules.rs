//! The index of kernel modules that `modules.dep` describes.
//!
//! Every line of `modules.dep` names a module file, a colon, and the files that the
//! module depends on, dependents first. The index maps a module's name to its file
//! and to the names of its dependencies in the order in which they are to be loaded.

use crate::path::{
    file_name_range, file_stem, lemma_file_name_of_component, lemma_file_name_of_join,
    stem_len, stem_of,
};
use crate::text::{
    chars_of, find_char, index_of, join, last_index_of, lemma_index_of_unique,
    lemma_last_index_of_unique, lemma_split_join, split, substring, views,
};
use vstd::hash_map::StringHashMap;
use vstd::prelude::*;
use vstd::slice::*;

verus! {

/// A module of the index.
pub struct Module {
    /// The module's file, relative to the kernel's module directory.
    pub filename: String,
    /// The names of the modules it depends on, those to load first at the front.
    pub deps: Vec<String>,
}

/// What a `Module` holds, as mathematical values.
pub struct ModuleRecord {
    pub filename: Seq<char>,
    pub deps: Seq<Seq<char>>,
}

impl View for Module {
    type V = ModuleRecord;

    open spec fn view(&self) -> ModuleRecord {
        ModuleRecord { filename: self.filename@, deps: views(self.deps@) }
    }
}

/// The name of the module in the file `path`: the stem of the stem of the path, which
/// drops `.ko` and a compression suffix from the file's name.
pub open spec fn module_name(path: Seq<char>) -> Option<Seq<char>> {
    match file_stem(path) {
        Some(stem) => file_stem(stem),
        None => None,
    }
}

/// The module names of those of `paths` that have one, in the order of `paths`.
pub open spec fn names_of(paths: Seq<Seq<char>>) -> Seq<Seq<char>>
    decreases paths.len(),
{
    if paths.len() == 0 {
        Seq::empty()
    } else {
        match module_name(paths.last()) {
            Some(name) => names_of(paths.drop_last()).push(name),
            None => names_of(paths.drop_last()),
        }
    }
}

/// What a line of `modules.dep` says: a module's name and its record, or nothing where
/// the line holds no colon or no module name stands before it. What follows the colon
/// is, after one character that is passed over, a list of paths with a space between
/// each two; the dependencies are their module names in reverse order.
pub open spec fn parse_dep_line(line: Seq<char>) -> Option<(Seq<char>, ModuleRecord)> {
    let colon = index_of(line, ':');
    if colon >= line.len() {
        None
    } else {
        match module_name(line.take(colon)) {
            None => None,
            Some(name) => {
                let rest = line.skip(colon + 1);
                let deps = if rest.len() == 0 {
                    Seq::empty()
                } else {
                    names_of(split(rest.skip(1), ' ')).reverse()
                };
                Some((name, ModuleRecord { filename: line.take(colon), deps }))
            },
        }
    }
}

/// The index that the lines of a `modules.dep` give: lines that say nothing are passed
/// over, and of two lines for one name the later one stays.
pub open spec fn index_of_lines(lines: Seq<Seq<char>>) -> Map<Seq<char>, ModuleRecord>
    decreases lines.len(),
{
    if lines.len() == 0 {
        Map::empty()
    } else {
        let index = index_of_lines(lines.drop_last());
        match parse_dep_line(lines.last()) {
            Some((name, record)) => index.insert(name, record),
            None => index,
        }
    }
}

/// The records of the modules in `map`.
pub open spec fn records(map: Map<Seq<char>, Module>) -> Map<Seq<char>, ModuleRecord> {
    map.map_values(|m: Module| m@)
}

/// A file name is its stem followed by a dot and an extension that holds no dot.
proof fn lemma_stem_of_extended(stem: Seq<char>, ext: Seq<char>)
    requires
        stem.len() > 0,
        !ext.contains('.'),
    ensures
        stem_of(stem + seq!['.'] + ext) == stem,
{
    let name = stem + seq!['.'] + ext;
    assert forall|k: int| stem.len() < k < name.len() implies name[k] != '.' by {
        assert(name[k] == ext[k - stem.len() - 1]);
        if ext[k - stem.len() - 1] == '.' {
            assert(ext.contains('.'));
        }
    }
    assert(name[stem.len() as int] == '.');
    lemma_last_index_of_unique(name, '.', stem.len() as int);
    assert(name.take(stem.len() as int) == stem);
}

/// The suffix `ko` of a module file.
pub open spec fn ko() -> Seq<char> {
    seq!['k', 'o']
}

/// The name of the module in `<dir><name>.ko.<ext>` is `<name>`, for every directory
/// prefix `dir` (empty, or ending in `/`), every non-empty `name` without a `/`, and
/// every extension without a `/` or a `.`.
pub proof fn lemma_module_name_compressed(dir: Seq<char>, name: Seq<char>, ext: Seq<char>)
    requires
        dir.len() == 0 || dir.last() == '/',
        name.len() > 0,
        !name.contains('/'),
        !ext.contains('/'),
        !ext.contains('.'),
    ensures
        module_name(dir + name + seq!['.'] + ko() + seq!['.'] + ext) == Some(name),
{
    let inner = name + seq!['.'] + ko();
    let file = inner + seq!['.'] + ext;
    assert(dir + name + seq!['.'] + ko() + seq!['.'] + ext == dir + file);
    assert forall|k: int| 0 <= k < file.len() implies file[k] != '/' by {
        if k < name.len() {
            assert(file[k] == name[k]);
            if name[k] == '/' {
                assert(name.contains('/'));
            }
        } else if k >= name.len() + 4 {
            assert(file[k] == ext[k - name.len() - 4]);
            if ext[k - name.len() - 4] == '/' {
                assert(ext.contains('/'));
            }
        }
    }
    assert(file[name.len() as int] == '.');
    lemma_file_name_of_join(dir, file);
    assert(!ko().contains('.'));
    lemma_stem_of_extended(inner, ext);
    assert forall|k: int| 0 <= k < inner.len() implies inner[k] != '/' by {
        assert(inner[k] == file[k]);
    }
    lemma_file_name_of_component(inner);
    lemma_stem_of_extended(name, ko());
}

/// The name of the module in `<dir><name>.ko` is `<name>`, for every directory prefix
/// `dir` (empty, or ending in `/`) and every non-empty `name` that holds no `/`, holds
/// no `.` after its first character, and is not `.` itself.
pub proof fn lemma_module_name_plain(dir: Seq<char>, name: Seq<char>)
    requires
        dir.len() == 0 || dir.last() == '/',
        name.len() > 0,
        !name.contains('/'),
        last_index_of(name, '.') <= 0,
        name != seq!['.'],
    ensures
        module_name(dir + name + seq!['.'] + ko()) == Some(name),
{
    let file = name + seq!['.'] + ko();
    assert(dir + name + seq!['.'] + ko() == dir + file);
    assert forall|k: int| 0 <= k < file.len() implies file[k] != '/' by {
        if k < name.len() {
            assert(file[k] == name[k]);
            if name[k] == '/' {
                assert(name.contains('/'));
            }
        }
    }
    assert(file[name.len() as int] == '.');
    lemma_file_name_of_join(dir, file);
    assert(!ko().contains('.'));
    lemma_stem_of_extended(name, ko());
    if name == seq!['.', '.'] {
        assert(name.last() == '.');
    }
    lemma_file_name_of_component(name);
}

/// The module names of paths that all have one are the names of each, in order.
proof fn lemma_names_of_all(paths: Seq<Seq<char>>)
    requires
        forall|i: int| 0 <= i < paths.len() ==> module_name(#[trigger] paths[i]) is Some,
    ensures
        names_of(paths) == paths.map_values(|p: Seq<char>| module_name(p).unwrap()),
    decreases paths.len(),
{
    if paths.len() > 0 {
        let head = paths.drop_last();
        assert forall|i: int| 0 <= i < head.len() implies module_name(#[trigger] head[i])
            is Some by {
            assert(head[i] == paths[i]);
        }
        lemma_names_of_all(head);
        assert(names_of(paths) =~= paths.map_values(|p: Seq<char>| module_name(p).unwrap()));
    }
}

/// A line `<file>: <dep> <dep> ..` gives the module of `file` with the names of the
/// dependencies in the reverse of the order in which the line lists them.
pub proof fn lemma_deps_are_inverted(file: Seq<char>, deps: Seq<Seq<char>>)
    requires
        !file.contains(':'),
        module_name(file) is Some,
        deps.len() > 0,
        forall|i: int|
            0 <= i < deps.len() ==> !(#[trigger] deps[i]).contains(' ') && module_name(deps[i])
                is Some,
    ensures
        parse_dep_line(file + seq![':', ' '] + join(deps, ' ')) == Some(
            (
                module_name(file).unwrap(),
                ModuleRecord {
                    filename: file,
                    deps: Seq::new(
                        deps.len(),
                        |i: int| module_name(deps[deps.len() - 1 - i]).unwrap(),
                    ),
                },
            ),
        ),
{
    let list = join(deps, ' ');
    let line = file + seq![':', ' '] + list;
    assert forall|k: int| 0 <= k < file.len() implies line[k] != ':' by {
        assert(line[k] == file[k]);
        if file[k] == ':' {
            assert(file.contains(':'));
        }
    }
    assert(line[file.len() as int] == ':');
    lemma_index_of_unique(line, ':', file.len() as int);
    assert(line.take(file.len() as int) == file);
    let rest = line.skip(file.len() as int + 1);
    assert(rest.len() > 0);
    assert(rest.skip(1) == list);
    lemma_split_join(deps, ' ');
    lemma_names_of_all(deps);
    assert(names_of(deps).reverse() =~= Seq::new(
        deps.len(),
        |i: int| module_name(deps[deps.len() - 1 - i]).unwrap(),
    ));
}

/// The range of the module name within the path `p`, if it has one.
fn module_name_range(p: &[char]) -> (r: Option<(usize, usize)>)
    ensures
        match r {
            Some((from, to)) => from <= to <= p@.len() && module_name(p@) == Some(
                p@.subrange(from as int, to as int),
            ),
            None => module_name(p@) is None,
        },
{
    match file_name_range(p) {
        None => None,
        Some((from, to)) => {
            let name = slice_subrange(p, from, to);
            let first: usize = stem_len(name);
            let stem = slice_subrange(name, 0, first);
            proof {
                assert(stem@ == stem_of(name@));
                assert forall|k: int| 0 <= k < stem@.len() implies stem@[k] != '/' by {
                    if stem@[k] == '/' {
                        assert(name@[k] == '/');
                        assert(name@.contains('/'));
                    }
                }
                lemma_file_name_of_component(stem@);
            }
            if first == 1 && stem[0] == '.' {
                assert(stem@ == seq!['.']);
                return None;
            }
            if first == 2 && stem[0] == '.' && stem[1] == '.' {
                assert(stem@ == seq!['.', '.']);
                return None;
            }
            proof {
                if stem@ == seq!['.'] {
                    assert(stem@.len() == 1 && stem@[0] == '.');
                }
                if stem@ == seq!['.', '.'] {
                    assert(stem@.len() == 2 && stem@[0] == '.' && stem@[1] == '.');
                }
            }
            let second: usize = stem_len(stem);
            assert(stem@.take(second as int) == p@.subrange(from as int, from + second));
            Some((from, from + second))
        },
    }
}

/// The name of the module in the file `filename`, if it has one.
pub fn get_module_name(filename: &str) -> (r: Option<String>)
    ensures
        match r {
            Some(name) => module_name(filename@) == Some(name@),
            None => module_name(filename@) is None,
        },
{
    let chars = chars_of(filename);
    match module_name_range(chars.as_slice()) {
        Some((from, to)) => Some(substring(filename, from, to)),
        None => None,
    }
}

/// The strings of `v` in reverse order.
fn reversed(v: Vec<String>) -> (r: Vec<String>)
    ensures
        views(r@) == views(v@).reverse(),
{
    let mut v = v;
    let ghost all = v@;
    let mut out: Vec<String> = Vec::new();
    while v.len() > 0
        invariant
            v@.len() + out@.len() == all.len(),
            v@ == all.take(v@.len() as int),
            forall|k: int| 0 <= k < out@.len() ==> out@[k] == all[all.len() - 1 - k],
        decreases v@.len(),
    {
        let last = v.pop().unwrap();
        out.push(last);
    }
    assert(views(out@) =~= views(all).reverse());
    out
}

/// Parses one line of `modules.dep`.
pub fn parse_module_dep_line(line: &str) -> (r: Option<(String, Module)>)
    ensures
        match r {
            Some((name, module)) => parse_dep_line(line@) == Some((name@, module@)),
            None => parse_dep_line(line@) is None,
        },
{
    let chars = chars_of(line);
    let len: usize = chars.len();
    let colon: usize = find_char(chars.as_slice(), ':');
    if colon >= len {
        return None;
    }
    let head = slice_subrange(chars.as_slice(), 0, colon);
    let name = match module_name_range(head) {
        None => {
            return None;
        },
        Some((from, to)) => {
            assert(head@.subrange(from as int, to as int) == line@.subrange(from as int, to as int));
            substring(line, from, to)
        },
    };
    let filename = substring(line, 0, colon);
    let mut names: Vec<String> = Vec::new();
    if colon + 1 < len {
        let ghost tail = line@.skip(colon + 2);
        assert(tail == line@.skip(colon + 1).skip(1));
        let mut pos: usize = colon + 2;
        let ghost mut done: Seq<Seq<char>> = Seq::empty();
        assert(tail.skip(0) == tail);
        assert(views(names@) == Seq::<Seq<char>>::empty());
        loop
            invariant_except_break
                split(tail, ' ') == done + split(tail.skip(pos - (colon + 2)), ' '),
                views(names@) == names_of(done),
            invariant
                colon + 2 <= pos <= len,
                len == chars@.len(),
                chars@ == line@,
                tail == line@.skip(colon + 2),
            ensures
                views(names@) == names_of(split(tail, ' ')),
            decreases len - pos,
        {
            let piece_all = slice_subrange(chars.as_slice(), pos, len);
            let ghost rest = tail.skip(pos - (colon + 2));
            assert(piece_all@ == rest);
            let end: usize = pos + find_char(piece_all, ' ');
            let piece = slice_subrange(chars.as_slice(), pos, end);
            assert(piece@ == rest.take(end - pos));
            match module_name_range(piece) {
                Some((from, to)) => {
                    assert(piece@.subrange(from as int, to as int) == line@.subrange(
                        pos + from,
                        pos + to,
                    ));
                    let dep = substring(line, pos + from, pos + to);
                    let ghost before = views(names@);
                    names.push(dep);
                    assert(views(names@) == before.push(dep@));
                },
                None => {},
            }
            proof {
                assert(done.push(piece@).drop_last() == done);
            }
            if end >= len {
                proof {
                    assert(piece@ == rest);
                    assert(done + seq![rest] == done.push(piece@));
                    assert(split(tail, ' ') == done.push(piece@));
                }
                break;
            }
            proof {
                assert(rest.skip(end - pos + 1) == tail.skip(end + 1 - (colon + 2)));
                assert(done + (seq![piece@] + split(rest.skip(end - pos + 1), ' ')) == done.push(
                    piece@,
                ) + split(rest.skip(end - pos + 1), ' '));
                done = done.push(piece@);
            }
            pos = end + 1;
        }
    } else {
        assert(line@.skip(colon + 1).len() == 0);
        assert(views(names@) == Seq::<Seq<char>>::empty());
    }
    let deps = reversed(names);
    Some((name, Module { filename, deps }))
}

/// Parses the lines of a `modules.dep` into a map from module name to module.
pub fn parse_module_dep(lines: &Vec<String>) -> (r: StringHashMap<Module>)
    ensures
        records(r@) == index_of_lines(views(lines@)),
        r@.dom().finite(),
{
    let mut map: StringHashMap<Module> = StringHashMap::new();
    let mut i: usize = 0;
    assert(views(lines@).take(0) == Seq::<Seq<char>>::empty());
    assert(records(map@) == Map::<Seq<char>, ModuleRecord>::empty());
    while i < lines.len()
        invariant
            i <= lines@.len(),
            records(map@) == index_of_lines(views(lines@).take(i as int)),
            map@.dom().finite(),
        decreases lines@.len() - i,
    {
        let ghost prefix = views(lines@).take(i + 1);
        assert(prefix.drop_last() == views(lines@).take(i as int));
        assert(prefix.last() == lines@[i as int]@);
        match parse_module_dep_line(lines[i].as_str()) {
            Some((name, module)) => {
                let ghost before = map@;
                map.insert(name, module);
                assert(records(map@) == records(before).insert(name@, module@));
            },
            None => {},
        }
        i = i + 1;
    }
    assert(views(lines@).take(i as int) == views(lines@));
    map
}

/// The module index: a map from a module's name to its file and dependencies.
pub struct Modules {
    data: StringHashMap<Module>,
}

impl View for Modules {
    type V = Map<Seq<char>, ModuleRecord>;

    closed spec fn view(&self) -> Map<Seq<char>, ModuleRecord> {
        records(self.data@)
    }
}

impl Modules {
    #[verifier::type_invariant]
    spec fn finite(self) -> bool {
        self.data@.dom().finite()
    }

    /// The index that the lines of a `modules.dep` describe.
    pub fn new(dep_lines: &Vec<String>) -> (r: Modules)
        ensures
            r@ == index_of_lines(views(dep_lines@)),
            r@.dom().finite(),
    {
        let data = parse_module_dep(dep_lines);
        assert(records(data@).dom() =~= data@.dom());
        Modules { data }
    }

    /// The number of modules in the index.
    pub fn len(&self) -> (r: usize)
        ensures
            r == self@.len(),
            self@.dom().finite(),
    {
        proof {
            use_type_invariant(self);
            assert(self@.dom() =~= self.data@.dom());
        }
        self.data.len()
    }

    /// The module named `module`, if the index has one.
    pub fn get(&self, module: &str) -> (r: Option<&Module>)
        ensures
            match r {
                Some(m) => self@.contains_key(module@) && self@[module@] == m@,
                None => !self@.contains_key(module@),
            },
            self@.dom().finite(),
    {
        proof {
            use_type_invariant(self);
            assert(self@.dom() =~= self.data@.dom());
        }
        self.data.get(module)
    }
}

} // verus!
