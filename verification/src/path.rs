//! File names and stems of Unix paths, over sequences of characters.

use crate::text::{
    chars_of, last_index_of, lemma_last_index_of, lemma_last_index_of_unique, rfind_char,
};
use vstd::prelude::*;
use vstd::slice::*;
use vstd::string::*;

verus! {

/// The final component of the path `p`, if it has one: separators and `.` components at
/// the end are passed over, and a path that ends in `..`, is empty or is only a root has
/// none.
pub open spec fn file_name(p: Seq<char>) -> Option<Seq<char>>
    decreases p.len(),
{
    if p.len() == 0 {
        None
    } else if p.last() == '/' {
        file_name(p.drop_last())
    } else {
        let start = last_index_of(p, '/') + 1;
        let name = p.skip(start);
        if name == seq!['.'] {
            if start == 0 {
                None
            } else {
                proof {
                    lemma_last_index_of(p, '/');
                }
                file_name(p.take(start))
            }
        } else if name == seq!['.', '.'] {
            None
        } else {
            Some(name)
        }
    }
}

/// The file name `name` without its extension: what stands before its last `.`, or all
/// of it where it holds no `.` or only one at its start.
pub open spec fn stem_of(name: Seq<char>) -> Seq<char> {
    let dot = last_index_of(name, '.');
    if dot <= 0 {
        name
    } else {
        name.take(dot)
    }
}

/// The stem of the final component of the path `p`, if it has one.
pub open spec fn file_stem(p: Seq<char>) -> Option<Seq<char>> {
    match file_name(p) {
        Some(name) => Some(stem_of(name)),
        None => None,
    }
}

/// The path `rel` taken from the directory `base`: `rel` itself where it is absolute,
/// else `base`, a `/` unless `base` is empty or ends in one, and `rel`.
pub open spec fn joined(base: Seq<char>, rel: Seq<char>) -> Seq<char> {
    if rel.len() > 0 && rel[0] == '/' {
        rel
    } else if base.len() == 0 || base.last() == '/' {
        base + rel
    } else {
        base + seq!['/'] + rel
    }
}

/// A path of one component is its own file name, unless it is `.` or `..`.
pub proof fn lemma_file_name_of_component(s: Seq<char>)
    requires
        s.len() > 0,
        !s.contains('/'),
    ensures
        file_name(s) == if s == seq!['.'] || s == seq!['.', '.'] {
            None
        } else {
            Some(s)
        },
{
    assert(s[s.len() - 1] != '/');
    assert forall|k: int| -1 < k < s.len() implies s[k] != '/' by {}
    lemma_last_index_of_unique(s, '/', -1);
    assert(s.skip(0) == s);
}

/// The file name of a directory prefix followed by one component is that component.
pub proof fn lemma_file_name_of_join(dir: Seq<char>, name: Seq<char>)
    requires
        dir.len() == 0 || dir.last() == '/',
        name.len() > 0,
        !name.contains('/'),
        name != seq!['.'],
        name != seq!['.', '.'],
    ensures
        file_name(dir + name) == Some(name),
{
    let p = dir + name;
    assert(p.last() == name.last());
    assert(name[name.len() - 1] != '/');
    assert forall|k: int| dir.len() - 1 < k < p.len() implies p[k] != '/' by {
        assert(p[k] == name[k - dir.len()]);
    }
    if dir.len() > 0 {
        assert(p[dir.len() - 1] == dir.last());
    }
    lemma_last_index_of_unique(p, '/', dir.len() - 1);
    assert(p.skip(dir.len() as int) == name);
}

/// The range of the final component of `p`, if it has one.
pub fn file_name_range(p: &[char]) -> (r: Option<(usize, usize)>)
    ensures
        match r {
            Some((from, to)) => from < to <= p@.len() && file_name(p@) == Some(
                p@.subrange(from as int, to as int),
            ) && !p@.subrange(from as int, to as int).contains('/'),
            None => file_name(p@) is None,
        },
{
    let mut end: usize = p.len();
    assert(p@.take(end as int) == p@);
    loop
        invariant
            end <= p@.len(),
            file_name(p@) == file_name(p@.take(end as int)),
        decreases end,
    {
        let ghost head = p@.take(end as int);
        if end == 0 {
            return None;
        }
        if p[end - 1] == '/' {
            assert(head.drop_last() == p@.take(end - 1));
            end = end - 1;
            continue;
        }
        let start: usize = match rfind_char(slice_subrange(p, 0, end), '/') {
            Some(i) => i + 1,
            None => 0,
        };
        proof {
            lemma_last_index_of(head, '/');
            assert(head.skip(start as int) == p@.subrange(start as int, end as int));
            assert(head.take(start as int) == p@.take(start as int));
        }
        let ghost name = p@.subrange(start as int, end as int);
        if end - start == 1 && p[start] == '.' {
            assert(name == seq!['.']);
            if start == 0 {
                return None;
            }
            end = start;
            continue;
        }
        if end - start == 2 && p[start] == '.' && p[start + 1] == '.' {
            assert(name == seq!['.', '.']);
            return None;
        }
        proof {
            if name == seq!['.'] {
                assert(name.len() == 1 && name[0] == '.');
            }
            if name == seq!['.', '.'] {
                assert(name.len() == 2 && name[0] == '.' && name[1] == '.');
            }
            assert forall|k: int| 0 <= k < name.len() implies name[k] != '/' by {
                assert(name[k] == head[start + k]);
            }
        }
        return Some((start, end));
    }
}

/// The length of the stem of the file name `name`.
pub fn stem_len(name: &[char]) -> (r: usize)
    ensures
        r <= name@.len(),
        name@.take(r as int) == stem_of(name@),
        name@.len() > 0 ==> r > 0,
{
    assert(name@.take(name@.len() as int) == name@);
    match rfind_char(name, '.') {
        Some(dot) => if dot == 0 {
            name.len()
        } else {
            dot
        },
        None => name.len(),
    }
}

/// The path `rel` taken from the directory `base`.
pub fn join(base: &str, rel: &str) -> (r: String)
    ensures
        r@ == joined(base@, rel@),
{
    let rel_chars = chars_of(rel);
    if rel_chars.len() > 0 && rel_chars[0] == '/' {
        return String::from_str(rel);
    }
    let base_chars = chars_of(base);
    let out = String::from_str(base);
    if base_chars.len() == 0 || base_chars[base_chars.len() - 1] == '/' {
        out.concat(rel)
    } else {
        proof {
            reveal_strlit("/");
            assert("/"@ == seq!['/']);
        }
        out.concat("/").concat(rel)
    }
}

} // verus!
