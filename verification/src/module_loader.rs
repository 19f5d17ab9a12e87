//! Loading kernel modules on demand, each after the modules it depends on.
//!
//! The loader decides what is to be inserted into the kernel and in which order; the
//! caller reads the files and makes the system call.

use crate::modules::{index_of_lines, Module, ModuleRecord, Modules};
use crate::path::{join, joined};
use crate::text::{chars_of, find_char, index_of, str_eq, substring, views};
use file_format::FileFormat;
use glob::{Pattern, PatternError};
use std::io::Read;
use vstd::hash_set::StringHashSet;
use vstd::prelude::*;
use vstd::set_lib::*;
use vstd::slice::*;
use vstd::string::*;
use xz2::bufread::XzDecoder;

verus! {

#[verifier::external_type_specification]
#[verifier::external_body]
pub struct ExPattern(Pattern);

#[verifier::external_type_specification]
#[verifier::external_body]
pub struct ExPatternError(PatternError);

/// Whether `glob::Pattern::new` accepts the text `pattern`.
pub uninterp spec fn glob_valid(pattern: Seq<char>) -> bool;

/// The text that `glob::Pattern::as_str` gives for a compiled pattern: the text it was
/// compiled from.
pub uninterp spec fn glob_source(pattern: Pattern) -> Seq<char>;

/// Whether `glob::Pattern::matches` finds that the pattern compiled from `pattern`
/// matches `text`.
pub uninterp spec fn glob_matches(pattern: Seq<char>, text: Seq<char>) -> bool;

/// `glob::Pattern::new`: compiles `pattern`; the compiled pattern keeps the text.
#[verifier::external_body]
fn pattern_new(pattern: &str) -> (r: Result<Pattern, PatternError>)
    ensures
        r is Ok == glob_valid(pattern@),
        r matches Ok(p) ==> glob_source(p) == pattern@,
{
    Pattern::new(pattern)
}

/// `glob::Pattern::as_str`: the text that `pattern` was compiled from.
#[verifier::external_body]
fn pattern_as_str(pattern: &Pattern) -> (r: &str)
    ensures
        r@ == glob_source(*pattern),
{
    pattern.as_str()
}

/// `glob::Pattern::matches`: whether `pattern` matches all of `text`, with the default
/// match options.
#[verifier::external_body]
fn pattern_matches(pattern: &Pattern, text: &str) -> (r: bool)
    ensures
        r == glob_matches(glob_source(*pattern), text@),
{
    pattern.matches(text)
}

/// A rule of `modules.alias`: devices whose modalias matches the pattern are served by
/// the module.
pub struct ModAlias {
    pattern: Pattern,
    module: String,
}

/// What a `ModAlias` holds, as mathematical values.
pub struct AliasRule {
    pub pattern: Seq<char>,
    pub module: Seq<char>,
}

impl View for ModAlias {
    type V = AliasRule;

    closed spec fn view(&self) -> AliasRule {
        AliasRule { pattern: glob_source(self.pattern), module: self.module@ }
    }
}

impl ModAlias {
    /// The glob pattern of the rule.
    pub fn pattern(&self) -> (r: String)
        ensures
            r@ == self@.pattern,
    {
        String::from_str(pattern_as_str(&self.pattern))
    }

    /// The module that the rule names.
    pub fn module(&self) -> (r: &str)
        ensures
            r@ == self@.module,
    {
        self.module.as_str()
    }

    /// Whether the rule's pattern matches `modalias`.
    pub fn matches(&self, modalias: &str) -> (r: bool)
        ensures
            r == glob_matches(self@.pattern, modalias@),
    {
        pattern_matches(&self.pattern, modalias)
    }
}

/// The rules of `aliases`, in order.
pub open spec fn rules(aliases: Seq<ModAlias>) -> Seq<AliasRule> {
    aliases.map_values(|a: ModAlias| a@)
}

/// What a line of `modules.alias` says. Its first six characters, `alias ` in a
/// well-formed file, are passed over; the pattern is what follows up to the first
/// space and the module is the rest. A line that is too short, holds no such space, or
/// whose pattern is no valid glob says nothing.
pub open spec fn parse_alias_line(line: Seq<char>) -> Option<AliasRule> {
    if line.len() < 6 {
        None
    } else {
        let rest = line.skip(6);
        let space = index_of(rest, ' ');
        if space >= rest.len() || !glob_valid(rest.take(space)) {
            None
        } else {
            Some(AliasRule { pattern: rest.take(space), module: rest.skip(space + 1) })
        }
    }
}

/// The rules that the lines of a `modules.alias` give, in the order of the file.
pub open spec fn aliases_of_lines(lines: Seq<Seq<char>>) -> Seq<AliasRule>
    decreases lines.len(),
{
    if lines.len() == 0 {
        Seq::empty()
    } else {
        match parse_alias_line(lines.last()) {
            Some(rule) => aliases_of_lines(lines.drop_last()).push(rule),
            None => aliases_of_lines(lines.drop_last()),
        }
    }
}

/// Whether `found` is the index of the first of `rules` whose pattern matches `text`,
/// or `None` where no pattern matches.
pub open spec fn is_first_match(rules: Seq<AliasRule>, text: Seq<char>, found: Option<int>) -> bool {
    match found {
        Some(i) => 0 <= i < rules.len() && glob_matches(rules[i].pattern, text) && forall|k: int|
            0 <= k < i ==> !glob_matches(#[trigger] rules[k].pattern, text),
        None => forall|k: int|
            0 <= k < rules.len() ==> !glob_matches(#[trigger] rules[k].pattern, text),
    }
}

/// Parses one line of `modules.alias`.
pub fn parse_module_alias_line(line: &str) -> (r: Option<ModAlias>)
    ensures
        match r {
            Some(alias) => parse_alias_line(line@) == Some(alias@),
            None => parse_alias_line(line@) is None,
        },
{
    let chars = chars_of(line);
    let len: usize = chars.len();
    if len < 6 {
        return None;
    }
    let rest = slice_subrange(chars.as_slice(), 6, len);
    assert(rest@ == line@.skip(6));
    let space: usize = find_char(rest, ' ');
    if space >= rest.len() {
        return None;
    }
    let text = substring(line, 6, 6 + space);
    assert(text@ == rest@.take(space as int));
    match pattern_new(text.as_str()) {
        Ok(pattern) => {
            let module = substring(line, 6 + space + 1, len);
            assert(module@ == rest@.skip(space + 1));
            Some(ModAlias { pattern, module })
        },
        Err(_) => None,
    }
}

/// Parses the lines of a `modules.alias`; lines that say nothing are passed over.
pub fn parse_module_alias(lines: &Vec<String>) -> (r: Vec<ModAlias>)
    ensures
        rules(r@) == aliases_of_lines(views(lines@)),
{
    let mut out: Vec<ModAlias> = Vec::new();
    let mut i: usize = 0;
    assert(views(lines@).take(0) == Seq::<Seq<char>>::empty());
    assert(rules(out@) == Seq::<AliasRule>::empty());
    while i < lines.len()
        invariant
            i <= lines@.len(),
            rules(out@) == aliases_of_lines(views(lines@).take(i as int)),
        decreases lines@.len() - i,
    {
        let ghost prefix = views(lines@).take(i + 1);
        assert(prefix.drop_last() == views(lines@).take(i as int));
        assert(prefix.last() == lines@[i as int]@);
        match parse_module_alias_line(lines[i].as_str()) {
            Some(alias) => {
                let ghost before = rules(out@);
                out.push(alias);
                assert(rules(out@) == before.push(alias@));
            },
            None => {},
        }
        i = i + 1;
    }
    assert(views(lines@).take(i as int) == views(lines@));
    out
}

/// A load in progress: the names marked as loaded, and the names of the modules to
/// insert into the kernel, in the order of insertion.
pub struct Loading {
    pub loaded: Set<Seq<char>>,
    pub order: Seq<Seq<char>>,
}

/// The modules of the index that are not marked as loaded.
pub open spec fn pending(index: Map<Seq<char>, ModuleRecord>, loaded: Set<Seq<char>>) -> Set<
    Seq<char>,
> {
    index.dom().difference(loaded)
}

/// Loading the module `name` in the state `st`. A name that is marked as loaded, or
/// that the index does not hold, changes nothing. Else the name is marked, each of its
/// dependencies is loaded in the order of the record, and then the module itself is
/// put at the end of the insertions.
pub open spec fn load(index: Map<Seq<char>, ModuleRecord>, name: Seq<char>, st: Loading) -> Loading
    decreases pending(index, st.loaded).len(), 0nat, 0nat,
{
    if st.loaded.contains(name) || !index.contains_key(name) || !index.dom().finite() {
        st
    } else {
        let marked = Loading { loaded: st.loaded.insert(name), order: st.order };
        proof {
            assert(pending(index, marked.loaded) == pending(index, st.loaded).remove(name));
        }
        let after = load_each(index, index[name].deps, marked);
        Loading { loaded: after.loaded, order: after.order.push(name) }
    }
}

/// Loading the modules `names` one after the other, first to last. What was marked as
/// loaded stays marked.
pub open spec fn load_each(
    index: Map<Seq<char>, ModuleRecord>,
    names: Seq<Seq<char>>,
    st: Loading,
) -> Loading
    decreases pending(index, st.loaded).len(), 1nat, names.len(),
{
    if names.len() == 0 || !index.dom().finite() {
        st
    } else {
        let next = load(index, names[0], st);
        let kept = Loading { loaded: st.loaded + next.loaded, order: next.order };
        proof {
            lemma_len_subset(pending(index, kept.loaded), pending(index, st.loaded));
        }
        load_each(index, names.drop_first(), kept)
    }
}

/// The state in which a load starts: `loaded` is marked, nothing is to be inserted yet.
pub open spec fn fresh(loaded: Set<Seq<char>>) -> Loading {
    Loading { loaded, order: Seq::empty() }
}

/// Whether `rank` orders the index so that every module stands above the modules of
/// the index that it depends on: such an index holds no cycle of dependencies.
pub open spec fn ranked(index: Map<Seq<char>, ModuleRecord>, rank: spec_fn(Seq<char>) -> nat) -> bool {
    forall|m: Seq<char>, i: int|
        index.contains_key(m) && 0 <= i < index[m].deps.len() && index.contains_key(
            #[trigger] index[m].deps[i],
        ) ==> rank(index[m].deps[i]) < rank(m)
}

/// Whether `loaded` holds, with every module of the index in it, the modules of the
/// index that this module depends on.
pub open spec fn closed(index: Map<Seq<char>, ModuleRecord>, loaded: Set<Seq<char>>) -> bool {
    forall|m: Seq<char>, i: int|
        loaded.contains(m) && index.contains_key(m) && 0 <= i < index[m].deps.len()
            && index.contains_key(#[trigger] index[m].deps[i]) ==> loaded.contains(
            index[m].deps[i],
        )
}

/// Whether `chain` leads from a module to a module that it depends on, step by step
/// through the index.
pub open spec fn is_chain(index: Map<Seq<char>, ModuleRecord>, chain: Seq<Seq<char>>) -> bool {
    &&& chain.len() >= 2
    &&& forall|i: int| 0 <= i < chain.len() ==> index.contains_key(#[trigger] chain[i])
    &&& forall|i: int|
        0 <= i < chain.len() - 1 ==> index[chain[i]].deps.contains(#[trigger] chain[i + 1])
}

/// Whether the module `dep` of the index is among what `module` depends on, directly or
/// through other modules of the index.
pub open spec fn depends_on(
    index: Map<Seq<char>, ModuleRecord>,
    module: Seq<char>,
    dep: Seq<char>,
) -> bool {
    exists|chain: Seq<Seq<char>>| #[trigger]
        is_chain(index, chain) && chain[0] == module && chain.last() == dep
}

/// Whether the modules that `order[k]` depends on directly stand before it in `order`
/// or in `initial`, as far as the index holds them, for every `k` from `from` on.
pub open spec fn deps_first(
    index: Map<Seq<char>, ModuleRecord>,
    initial: Set<Seq<char>>,
    order: Seq<Seq<char>>,
    from: int,
) -> bool {
    forall|k: int, i: int|
        from <= k < order.len() && index.contains_key(order[k]) && 0 <= i < index[order[k]].deps.len()
            && index.contains_key(#[trigger] index[order[k]].deps[i]) ==> initial.contains(
            index[order[k]].deps[i],
        ) || order.take(k).contains(index[order[k]].deps[i])
}

/// Whether the state `st` of a load that began with `initial` marked, and that is now
/// at work on the modules `open`, accounts for every mark: marked is what was marked at
/// the beginning, what is to be inserted and what is at work; what is to be inserted is
/// of the index, was not marked at the beginning, is not at work and occurs once.
pub open spec fn accounted(
    index: Map<Seq<char>, ModuleRecord>,
    st: Loading,
    initial: Set<Seq<char>>,
    open: Set<Seq<char>>,
) -> bool {
    &&& forall|x: Seq<char>|
        st.loaded.contains(x) <==> initial.contains(x) || open.contains(x) || st.order.contains(x)
    &&& forall|k: int|
        0 <= k < st.order.len() ==> index.contains_key(#[trigger] st.order[k])
            && !initial.contains(st.order[k]) && !open.contains(st.order[k])
    &&& st.order.no_duplicates()
}

/// `load` keeps the account of the marks, and marks the module where the index has it.
proof fn lemma_load_accounts(
    index: Map<Seq<char>, ModuleRecord>,
    name: Seq<char>,
    st: Loading,
    initial: Set<Seq<char>>,
    open: Set<Seq<char>>,
)
    requires
        index.dom().finite(),
        accounted(index, st, initial, open),
    ensures
        accounted(index, load(index, name, st), initial, open),
        st.order.is_prefix_of(load(index, name, st).order),
        st.loaded.subset_of(load(index, name, st).loaded),
        index.contains_key(name) ==> load(index, name, st).loaded.contains(name),
    decreases pending(index, st.loaded).len(), 0nat, 0nat,
{
    if st.loaded.contains(name) || !index.contains_key(name) {
    } else {
        let marked = Loading { loaded: st.loaded.insert(name), order: st.order };
        assert(pending(index, marked.loaded) == pending(index, st.loaded).remove(name));
        let deps = index[name].deps;
        let inner = open.insert(name);
        lemma_load_each_accounts(index, deps, marked, initial, inner);
        let after = load_each(index, deps, marked);
        let r = load(index, name, st);
        assert(r.order == after.order.push(name));
        assert(!after.order.contains(name)) by {
            if after.order.contains(name) {
                let k = choose|k: int| 0 <= k < after.order.len() && after.order[k] == name;
                assert(inner.contains(after.order[k]));
            }
        }
        assert forall|x: Seq<char>|
            r.loaded.contains(x) <==> initial.contains(x) || open.contains(x) || r.order.contains(
                x,
            ) by {
            if after.order.contains(x) {
                let k = choose|k: int| 0 <= k < after.order.len() && after.order[k] == x;
                assert(r.order[k] == x);
            }
            if r.order.contains(x) {
                let k = choose|k: int| 0 <= k < r.order.len() && r.order[k] == x;
                if k < after.order.len() {
                    assert(after.order[k] == x);
                }
            }
            assert(r.order[after.order.len() as int] == name);
        }
        assert(!initial.contains(name) && !open.contains(name));
        assert(st.order.is_prefix_of(r.order));
    }
}

/// `load_each` keeps the account of the marks, and marks each of the modules that the
/// index has.
proof fn lemma_load_each_accounts(
    index: Map<Seq<char>, ModuleRecord>,
    names: Seq<Seq<char>>,
    st: Loading,
    initial: Set<Seq<char>>,
    open: Set<Seq<char>>,
)
    requires
        index.dom().finite(),
        accounted(index, st, initial, open),
    ensures
        accounted(index, load_each(index, names, st), initial, open),
        st.order.is_prefix_of(load_each(index, names, st).order),
        st.loaded.subset_of(load_each(index, names, st).loaded),
        forall|i: int|
            0 <= i < names.len() && index.contains_key(#[trigger] names[i]) ==> load_each(
                index,
                names,
                st,
            ).loaded.contains(names[i]),
    decreases pending(index, st.loaded).len(), 1nat, names.len(),
{
    if names.len() > 0 {
        lemma_load_accounts(index, names[0], st, initial, open);
        let next = load(index, names[0], st);
        let kept = Loading { loaded: st.loaded + next.loaded, order: next.order };
        assert(kept.loaded == next.loaded);
        lemma_len_subset(pending(index, kept.loaded), pending(index, st.loaded));
        let rest = names.drop_first();
        lemma_load_each_accounts(index, rest, kept, initial, open);
        let r = load_each(index, names, st);
        assert forall|i: int| 0 <= i < names.len() && index.contains_key(#[trigger] names[i]) implies r.loaded.contains(
            names[i],
        ) by {
            if i > 0 {
                assert(rest[i - 1] == names[i]);
            }
        }
    }
}

/// `load` puts a module behind what it depends on, for an index without a cycle.
proof fn lemma_load_orders(
    index: Map<Seq<char>, ModuleRecord>,
    name: Seq<char>,
    st: Loading,
    initial: Set<Seq<char>>,
    open: Set<Seq<char>>,
    rank: spec_fn(Seq<char>) -> nat,
)
    requires
        index.dom().finite(),
        ranked(index, rank),
        accounted(index, st, initial, open),
        deps_first(index, initial, st.order, 0),
        forall|a: Seq<char>| open.contains(a) && index.contains_key(name) ==> rank(name) < rank(a),
    ensures
        deps_first(index, initial, load(index, name, st).order, 0),
    decreases pending(index, st.loaded).len(), 0nat, 0nat,
{
    if st.loaded.contains(name) || !index.contains_key(name) {
    } else {
        let marked = Loading { loaded: st.loaded.insert(name), order: st.order };
        assert(pending(index, marked.loaded) == pending(index, st.loaded).remove(name));
        let deps = index[name].deps;
        let inner = open.insert(name);
        assert forall|i: int| 0 <= i < deps.len() && index.contains_key(#[trigger] deps[i]) implies rank(
            deps[i],
        ) < rank(name) by {}
        lemma_load_each_accounts(index, deps, marked, initial, inner);
        lemma_load_each_orders(index, deps, marked, initial, inner, rank, rank(name));
        let after = load_each(index, deps, marked);
        let r = load(index, name, st);
        assert(r.order == after.order.push(name));
        assert(r.order.take(after.order.len() as int) == after.order);
        assert forall|k: int, i: int|
            0 <= k < r.order.len() && index.contains_key(r.order[k]) && 0 <= i
                < index[r.order[k]].deps.len() && index.contains_key(
                #[trigger] index[r.order[k]].deps[i],
            ) implies initial.contains(index[r.order[k]].deps[i]) || r.order.take(k).contains(
            index[r.order[k]].deps[i],
        ) by {
            let dep = index[r.order[k]].deps[i];
            if k < after.order.len() {
                assert(r.order[k] == after.order[k]);
                assert(r.order.take(k) == after.order.take(k));
            } else {
                assert(r.order[k] == name);
                assert(after.loaded.contains(dep));
                assert(rank(dep) < rank(name));
                assert(!inner.contains(dep));
            }
        }
    }
}

/// `load_each` puts every module behind what it depends on, for an index without a
/// cycle.
proof fn lemma_load_each_orders(
    index: Map<Seq<char>, ModuleRecord>,
    names: Seq<Seq<char>>,
    st: Loading,
    initial: Set<Seq<char>>,
    open: Set<Seq<char>>,
    rank: spec_fn(Seq<char>) -> nat,
    bound: nat,
)
    requires
        index.dom().finite(),
        ranked(index, rank),
        accounted(index, st, initial, open),
        deps_first(index, initial, st.order, 0),
        forall|i: int| 0 <= i < names.len() && index.contains_key(#[trigger] names[i]) ==> rank(names[i])
            < bound,
        forall|a: Seq<char>| open.contains(a) ==> bound <= rank(a),
    ensures
        deps_first(index, initial, load_each(index, names, st).order, 0),
    decreases pending(index, st.loaded).len(), 1nat, names.len(),
{
    if names.len() > 0 {
        lemma_load_accounts(index, names[0], st, initial, open);
        lemma_load_orders(index, names[0], st, initial, open, rank);
        let next = load(index, names[0], st);
        let kept = Loading { loaded: st.loaded + next.loaded, order: next.order };
        assert(kept.loaded == next.loaded);
        lemma_len_subset(pending(index, kept.loaded), pending(index, st.loaded));
        let rest = names.drop_first();
        assert forall|i: int| 0 <= i < rest.len() && index.contains_key(#[trigger] rest[i]) implies rank(
            rest[i],
        ) < bound by {
            assert(rest[i] == names[i + 1]);
        }
        lemma_load_each_orders(index, rest, kept, initial, open, rank, bound);
    }
}

/// Whether `loaded` holds, with every module of the index in it that is not among
/// `open`, the modules of the index that this module depends on.
pub open spec fn closed_but(
    index: Map<Seq<char>, ModuleRecord>,
    loaded: Set<Seq<char>>,
    open: Set<Seq<char>>,
) -> bool {
    forall|m: Seq<char>, i: int|
        loaded.contains(m) && !open.contains(m) && index.contains_key(m) && 0 <= i
            < index[m].deps.len() && index.contains_key(#[trigger] index[m].deps[i])
            ==> loaded.contains(index[m].deps[i])
}

/// `load` marks what the modules that it marks depend on.
proof fn lemma_load_closes(
    index: Map<Seq<char>, ModuleRecord>,
    name: Seq<char>,
    st: Loading,
    initial: Set<Seq<char>>,
    open: Set<Seq<char>>,
)
    requires
        index.dom().finite(),
        accounted(index, st, initial, open),
        closed_but(index, st.loaded, open),
    ensures
        closed_but(index, load(index, name, st).loaded, open),
    decreases pending(index, st.loaded).len(), 0nat, 0nat,
{
    if st.loaded.contains(name) || !index.contains_key(name) {
    } else {
        let marked = Loading { loaded: st.loaded.insert(name), order: st.order };
        assert(pending(index, marked.loaded) == pending(index, st.loaded).remove(name));
        let deps = index[name].deps;
        let inner = open.insert(name);
        lemma_load_each_accounts(index, deps, marked, initial, inner);
        lemma_load_each_closes(index, deps, marked, initial, inner);
        let after = load_each(index, deps, marked);
        assert forall|m: Seq<char>, i: int|
            after.loaded.contains(m) && !open.contains(m) && index.contains_key(m) && 0 <= i
                < index[m].deps.len() && index.contains_key(
                #[trigger] index[m].deps[i],
            ) implies after.loaded.contains(index[m].deps[i]) by {
            if m == name {
                assert(deps[i] == index[m].deps[i]);
            }
        }
    }
}

/// `load_each` marks what the modules that it marks depend on.
proof fn lemma_load_each_closes(
    index: Map<Seq<char>, ModuleRecord>,
    names: Seq<Seq<char>>,
    st: Loading,
    initial: Set<Seq<char>>,
    open: Set<Seq<char>>,
)
    requires
        index.dom().finite(),
        accounted(index, st, initial, open),
        closed_but(index, st.loaded, open),
    ensures
        closed_but(index, load_each(index, names, st).loaded, open),
    decreases pending(index, st.loaded).len(), 1nat, names.len(),
{
    if names.len() > 0 {
        lemma_load_accounts(index, names[0], st, initial, open);
        lemma_load_closes(index, names[0], st, initial, open);
        let next = load(index, names[0], st);
        let kept = Loading { loaded: st.loaded + next.loaded, order: next.order };
        assert(kept.loaded == next.loaded);
        lemma_len_subset(pending(index, kept.loaded), pending(index, st.loaded));
        lemma_load_each_closes(index, names.drop_first(), kept, initial, open);
    }
}

/// A load keeps the marks closed: where every marked module had the modules of the
/// index that it depends on marked before the load, it is so after it.
pub proof fn lemma_load_keeps_closed(
    index: Map<Seq<char>, ModuleRecord>,
    loaded: Set<Seq<char>>,
    name: Seq<char>,
)
    requires
        closed(index, loaded),
    ensures
        closed(index, load(index, name, fresh(loaded)).loaded),
{
    if index.dom().finite() {
        lemma_load_closes(index, name, fresh(loaded), loaded, Set::empty());
    }
}

/// Loading a module a second time changes nothing and asks for no insertion, and the
/// first load asks at most once for the insertion of any module.
pub proof fn lemma_load_twice(
    index: Map<Seq<char>, ModuleRecord>,
    loaded: Set<Seq<char>>,
    name: Seq<char>,
)
    requires
        index.dom().finite(),
        loaded.contains(name) || index.contains_key(name),
    ensures
        load(index, name, fresh(loaded)).loaded.contains(name),
        load(index, name, fresh(loaded)).order.no_duplicates(),
        load(index, name, fresh(load(index, name, fresh(loaded)).loaded)) == fresh(
            load(index, name, fresh(loaded)).loaded,
        ),
{
    lemma_load_accounts(index, name, fresh(loaded), loaded, Set::empty());
}

/// In the order of insertion that a load gives, every module of the index that a
/// module depends on, directly or through others, was marked as loaded before the load
/// or stands before the module: for an index without a cycle of dependencies, and
/// where what was marked before the load had its own dependencies marked.
pub proof fn lemma_deps_before_dependents(
    index: Map<Seq<char>, ModuleRecord>,
    loaded: Set<Seq<char>>,
    name: Seq<char>,
    rank: spec_fn(Seq<char>) -> nat,
)
    requires
        index.dom().finite(),
        ranked(index, rank),
        closed(index, loaded),
    ensures
        forall|k: int, dep: Seq<char>|
            #![trigger depends_on(index, load(index, name, fresh(loaded)).order[k], dep)]
            0 <= k < load(index, name, fresh(loaded)).order.len() && depends_on(
                index,
                load(index, name, fresh(loaded)).order[k],
                dep,
            ) ==> loaded.contains(dep) || load(index, name, fresh(loaded)).order.take(k).contains(dep),
{
    lemma_load_accounts(index, name, fresh(loaded), loaded, Set::empty());
    lemma_load_orders(index, name, fresh(loaded), loaded, Set::empty(), rank);
    let r = load(index, name, fresh(loaded));
    assert forall|k: int, dep: Seq<char>|
        #![trigger depends_on(index, r.order[k], dep)]
        0 <= k < r.order.len() && depends_on(index, r.order[k], dep) implies loaded.contains(dep)
        || r.order.take(k).contains(dep) by {
        let chain = choose|chain: Seq<Seq<char>>| #[trigger]
            is_chain(index, chain) && chain[0] == r.order[k] && chain.last() == dep;
        lemma_chain_stays_before(index, loaded, r.order, k, chain, chain.len() - 1);
    }
}

/// Every member of a chain that starts at `order[k]` was marked before the load or
/// stands before place `k`.
proof fn lemma_chain_stays_before(
    index: Map<Seq<char>, ModuleRecord>,
    initial: Set<Seq<char>>,
    order: Seq<Seq<char>>,
    k: int,
    chain: Seq<Seq<char>>,
    upto: int,
)
    requires
        closed(index, initial),
        deps_first(index, initial, order, 0),
        0 <= k < order.len(),
        is_chain(index, chain),
        chain[0] == order[k],
        1 <= upto < chain.len(),
    ensures
        initial.contains(chain[upto]) || order.take(k).contains(chain[upto]),
    decreases upto,
{
    let from = chain[upto - 1];
    let dep = chain[upto];
    assert(chain[(upto - 1) + 1] == dep);
    assert(index[from].deps.contains(dep));
    let i = choose|i: int| 0 <= i < index[from].deps.len() && index[from].deps[i] == dep;
    assert(index.contains_key(index[from].deps[i]));
    if upto == 1 {
        assert(index[order[k]].deps[i] == dep);
    } else {
        lemma_chain_stays_before(index, initial, order, k, chain, upto - 1);
        if !initial.contains(from) {
            let j = choose|j: int| 0 <= j < k && order.take(k)[j] == from;
            assert(order[j] == from);
            assert(index[order[j]].deps[i] == dep);
            if order.take(j).contains(dep) {
                let h = choose|h: int| 0 <= h < j && order.take(j)[h] == dep;
                assert(order.take(k)[h] == dep);
            }
        }
    }
}

/// What comes of asking for a module.
pub enum LoadOutcome {
    /// The index does not know the module: it may be built into the kernel.
    Unknown,
    /// The module is loaded once the modules named here have been inserted into the
    /// kernel, in this order.
    Loaded(Vec<String>),
}

/// The names that a loader has marked as loaded: as a set, and in the order in which
/// they were marked.
struct Marks {
    set: StringHashSet,
    list: Vec<String>,
}

/// The loader of one kernel: its module index, its alias rules and the names of the
/// modules it has marked as loaded.
pub struct ModuleLoader {
    modules: Modules,
    aliases: Vec<ModAlias>,
    marks: Marks,
    kernel_root: String,
}

/// What a `ModuleLoader` holds, as mathematical values.
pub struct LoaderView {
    pub index: Map<Seq<char>, ModuleRecord>,
    pub aliases: Seq<AliasRule>,
    /// The names marked as loaded.
    pub loaded: Set<Seq<char>>,
    /// The names marked as loaded, in the order in which they were marked.
    pub marked: Seq<Seq<char>>,
    pub kernel_root: Seq<char>,
}

impl View for ModuleLoader {
    type V = LoaderView;

    closed spec fn view(&self) -> LoaderView {
        LoaderView {
            index: self.modules@,
            aliases: rules(self.aliases@),
            loaded: self.marks.set@,
            marked: views(self.marks.list@),
            kernel_root: self.kernel_root@,
        }
    }
}

/// Whether the index holds no cycle of dependencies: some rank puts every module
/// above the modules of the index that it depends on.
pub open spec fn acyclic(index: Map<Seq<char>, ModuleRecord>) -> bool {
    exists|rank: spec_fn(Seq<char>) -> nat| ranked(index, rank)
}

/// Whether every module that `order[k]` depends on, directly or through others, was
/// among `loaded` or stands before place `k` in `order`, as far as the index holds it.
pub open spec fn ordered(
    index: Map<Seq<char>, ModuleRecord>,
    loaded: Set<Seq<char>>,
    order: Seq<Seq<char>>,
) -> bool {
    forall|k: int, dep: Seq<char>|
        #![trigger depends_on(index, order[k], dep)]
        0 <= k < order.len() && depends_on(index, order[k], dep) ==> loaded.contains(dep)
            || order.take(k).contains(dep)
}

/// Whether the loader `v` is as every loader is: its index is finite; the marks are the
/// same as a set and in their order, each a module of the index, none twice; and in an
/// index without a cycle every marked module stands behind the modules of the index
/// that it depends on.
pub open spec fn valid(v: LoaderView) -> bool {
    &&& v.index.dom().finite()
    &&& forall|x: Seq<char>| v.loaded.contains(x) <==> v.marked.contains(x)
    &&& v.marked.no_duplicates()
    &&& forall|k: int| 0 <= k < v.marked.len() ==> v.index.contains_key(#[trigger] v.marked[k])
    &&& acyclic(v.index) ==> deps_first(v.index, Set::empty(), v.marked, 0)
}

/// The loader `v` after the module `name` has been loaded: what the load marks is
/// marked, in the order of insertion.
pub open spec fn after_load(v: LoaderView, name: Seq<char>) -> LoaderView {
    LoaderView {
        loaded: load(v.index, name, fresh(v.loaded)).loaded,
        marked: v.marked + load(v.index, name, fresh(v.loaded)).order,
        ..v
    }
}

/// The loader `v` after the insertion of the module `name` has failed: the module and
/// whatever was marked after it are marked no more. A name that is not marked changes
/// nothing.
pub open spec fn after_failure(v: LoaderView, name: Seq<char>) -> LoaderView {
    let kept = v.marked.take(index_of(v.marked, name));
    LoaderView { loaded: Set::new(|x: Seq<char>| kept.contains(x)), marked: kept, ..v }
}

/// In a loader whose index has no cycle, every marked module has the modules of the
/// index that it depends on marked.
pub proof fn lemma_valid_is_closed(v: LoaderView)
    requires
        valid(v),
        acyclic(v.index),
    ensures
        closed(v.index, v.loaded),
{
    assert forall|m: Seq<char>, i: int|
        v.loaded.contains(m) && v.index.contains_key(m) && 0 <= i < v.index[m].deps.len()
            && v.index.contains_key(#[trigger] v.index[m].deps[i]) implies v.loaded.contains(
        v.index[m].deps[i],
    ) by {
        let dep = v.index[m].deps[i];
        let k = choose|k: int| 0 <= k < v.marked.len() && v.marked[k] == m;
        assert(v.index[v.marked[k]].deps[i] == dep);
        let part = v.marked.take(k);
        let j = choose|j: int| 0 <= j < part.len() && part[j] == dep;
        assert(v.marked[j] == dep);
    }
}

/// A load keeps a loader as every loader is, and in an index without a cycle it puts
/// every module behind all that it depends on.
pub proof fn lemma_load_keeps_valid(v: LoaderView, name: Seq<char>)
    requires
        valid(v),
    ensures
        valid(after_load(v, name)),
        acyclic(v.index) ==> ordered(v.index, v.loaded, load(v.index, name, fresh(v.loaded)).order),
{
    let index = v.index;
    let r = load(index, name, fresh(v.loaded));
    let w = after_load(v, name);
    let n = v.marked.len() as int;
    lemma_load_accounts(index, name, fresh(v.loaded), v.loaded, Set::empty());
    assert forall|x: Seq<char>| w.loaded.contains(x) <==> w.marked.contains(x) by {
        if v.marked.contains(x) {
            let k = choose|k: int| 0 <= k < v.marked.len() && v.marked[k] == x;
            assert(w.marked[k] == x);
        }
        if r.order.contains(x) {
            let k = choose|k: int| 0 <= k < r.order.len() && r.order[k] == x;
            assert(w.marked[n + k] == x);
        }
        if w.marked.contains(x) {
            let k = choose|k: int| 0 <= k < w.marked.len() && w.marked[k] == x;
            if k < n {
                assert(v.marked[k] == x);
            } else {
                assert(r.order[k - n] == x);
            }
        }
    }
    assert forall|i: int, j: int| 0 <= i < j < w.marked.len() implies w.marked[i] != w.marked[j] by {
        if j >= n {
            assert(w.marked[j] == r.order[j - n]);
            if i < n {
                assert(v.marked[i] == w.marked[i]);
                assert(v.loaded.contains(v.marked[i]));
            } else {
                assert(w.marked[i] == r.order[i - n]);
            }
        } else {
            assert(v.marked[i] == w.marked[i] && v.marked[j] == w.marked[j]);
        }
    }
    assert forall|k: int| 0 <= k < w.marked.len() implies w.index.contains_key(
        #[trigger] w.marked[k],
    ) by {
        if k < n {
            assert(v.marked[k] == w.marked[k]);
        } else {
            assert(w.marked[k] == r.order[k - n]);
        }
    }
    if acyclic(index) {
        let rank = choose|rank: spec_fn(Seq<char>) -> nat| ranked(index, rank);
        lemma_valid_is_closed(v);
        lemma_load_orders(index, name, fresh(v.loaded), v.loaded, Set::empty(), rank);
        lemma_deps_before_dependents(index, v.loaded, name, rank);
        assert forall|k: int, i: int|
            0 <= k < w.marked.len() && index.contains_key(w.marked[k]) && 0 <= i
                < index[w.marked[k]].deps.len() && index.contains_key(
                #[trigger] index[w.marked[k]].deps[i],
            ) implies w.marked.take(k).contains(index[w.marked[k]].deps[i]) by {
            let dep = index[w.marked[k]].deps[i];
            if k < n {
                assert(v.marked[k] == w.marked[k]);
                assert(index[v.marked[k]].deps[i] == dep);
                let part = v.marked.take(k);
                let j = choose|j: int| 0 <= j < part.len() && part[j] == dep;
                assert(w.marked.take(k)[j] == dep);
            } else {
                assert(w.marked[k] == r.order[k - n]);
                assert(index[r.order[k - n]].deps[i] == dep);
                if v.loaded.contains(dep) {
                    let j = choose|j: int| 0 <= j < v.marked.len() && v.marked[j] == dep;
                    assert(w.marked.take(k)[j] == dep);
                } else {
                    let part = r.order.take(k - n);
                    let j = choose|j: int| 0 <= j < part.len() && part[j] == dep;
                    assert(w.marked.take(k)[n + j] == dep);
                }
            }
        }
    }
}

/// Taking back the marks from a failed module on keeps a loader as every loader is.
pub proof fn lemma_failure_keeps_valid(v: LoaderView, name: Seq<char>)
    requires
        valid(v),
    ensures
        valid(after_failure(v, name)),
        !after_failure(v, name).loaded.contains(name),
        after_failure(v, name).loaded.subset_of(v.loaded),
{
    let w = after_failure(v, name);
    crate::text::lemma_index_of(v.marked, name);
    let p = index_of(v.marked, name);
    assert forall|k: int| 0 <= k < w.marked.len() implies v.index.contains_key(
        #[trigger] w.marked[k],
    ) by {
        assert(w.marked[k] == v.marked[k]);
    }
    assert forall|x: Seq<char>| w.loaded.contains(x) implies v.loaded.contains(x) by {
        let k = choose|k: int| 0 <= k < w.marked.len() && w.marked[k] == x;
        assert(v.marked[k] == x);
    }
    if w.marked.contains(name) {
        let k = choose|k: int| 0 <= k < w.marked.len() && w.marked[k] == name;
        assert(v.marked[k] == name);
    }
    if acyclic(v.index) {
        assert forall|k: int, i: int|
            0 <= k < w.marked.len() && v.index.contains_key(w.marked[k]) && 0 <= i
                < v.index[w.marked[k]].deps.len() && v.index.contains_key(
                #[trigger] v.index[w.marked[k]].deps[i],
            ) implies w.marked.take(k).contains(v.index[w.marked[k]].deps[i]) by {
            assert(w.marked[k] == v.marked[k]);
            assert(w.marked.take(k) == v.marked.take(k));
            assert(v.index[v.marked[k]].deps[i] == v.index[w.marked[k]].deps[i]);
        }
    }
}

/// Loads `name` and whatever it depends on: marks the names in `loaded` and puts the
/// modules to insert at the end of `order`. Returns whether the module is known, that
/// is marked already or in the index.
fn load_into(modules: &Modules, loaded: &mut StringHashSet, name: &str, order: &mut Vec<String>) -> (known:
    bool)
    ensures
        (Loading { loaded: final(loaded)@, order: views(final(order)@) }) == load(
            modules@,
            name@,
            Loading { loaded: old(loaded)@, order: views(old(order)@) },
        ),
        known == (old(loaded)@.contains(name@) || modules@.contains_key(name@)),
        old(loaded)@.subset_of(final(loaded)@),
    decreases pending(modules@, old(loaded)@).len(),
{
    if loaded.contains(name) {
        return true;
    }
    let module = match modules.get(name) {
        Some(module) => module,
        None => {
            return false;
        },
    };
    let ghost index = modules@;
    let ghost start = Loading { loaded: old(loaded)@, order: views(old(order)@) };
    loaded.insert(String::from_str(name));
    let ghost marked = Loading { loaded: loaded@, order: views(order@) };
    let ghost deps = index[name@].deps;
    assert(deps == views(module.deps@));
    proof {
        assert(pending(index, marked.loaded) == pending(index, start.loaded).remove(name@));
    }
    let mut i: usize = 0;
    assert(deps.skip(0) == deps);
    while i < module.deps.len()
        invariant
            i <= module.deps@.len(),
            deps == views(module.deps@),
            index == modules@,
            index.dom().finite(),
            pending(index, loaded@).len() < pending(index, old(loaded)@).len(),
            old(loaded)@.subset_of(loaded@),
            load_each(index, deps, marked) == load_each(
                index,
                deps.skip(i as int),
                Loading { loaded: loaded@, order: views(order@) },
            ),
        decreases module.deps@.len() - i,
    {
        let ghost here = Loading { loaded: loaded@, order: views(order@) };
        let ghost rest = deps.skip(i as int);
        assert(rest[0] == module.deps@[i as int]@);
        assert(rest.drop_first() == deps.skip(i + 1));
        load_into(modules, loaded, module.deps[i].as_str(), order);
        proof {
            assert(here.loaded + loaded@ == loaded@);
            lemma_len_subset(pending(index, loaded@), pending(index, here.loaded));
        }
        i = i + 1;
    }
    assert(deps.skip(i as int) == Seq::<Seq<char>>::empty());
    let ghost before = views(order@);
    let own = String::from_str(name);
    order.push(own);
    assert(views(order@) == before.push(name@));
    true
}

impl ModuleLoader {
    /// Every loader is as `valid` says.
    #[verifier::type_invariant]
    spec fn is_valid(self) -> bool {
        valid(self@)
    }

    /// The loader for the kernel `kernel_version`, from the lines of its `modules.dep`
    /// and `modules.alias`. Nothing is marked as loaded.
    pub fn init(kernel_version: &str, dep_lines: &Vec<String>, alias_lines: &Vec<String>) -> (r:
        ModuleLoader)
        ensures
            r@ == (LoaderView {
                index: index_of_lines(views(dep_lines@)),
                aliases: aliases_of_lines(views(alias_lines@)),
                loaded: Set::empty(),
                marked: Seq::empty(),
                kernel_root: joined("/lib/modules"@, kernel_version@),
            }),
            valid(r@),
    {
        let modules = Modules::new(dep_lines);
        let list: Vec<String> = Vec::new();
        assert(views(list@) == Seq::<Seq<char>>::empty());
        ModuleLoader {
            modules,
            aliases: parse_module_alias(alias_lines),
            marks: Marks { set: StringHashSet::new(), list },
            kernel_root: join("/lib/modules", kernel_version),
        }
    }

    /// Takes the marks out of the loader, which is left without marks.
    fn take_marks(&mut self) -> (r: Marks)
        ensures
            r.set@ == old(self)@.loaded,
            views(r.list@) == old(self)@.marked,
            final(self)@ == (LoaderView {
                loaded: Set::empty(),
                marked: Seq::empty(),
                ..old(self)@
            }),
            valid(old(self)@),
    {
        proof {
            use_type_invariant(&*self);
        }
        let list: Vec<String> = Vec::new();
        assert(views(list@) == Seq::<Seq<char>>::empty());
        let mut marks = Marks { set: StringHashSet::new(), list };
        core::mem::swap(&mut self.marks, &mut marks);
        marks
    }

    /// Loads `name`: marks what the load takes and returns whether the module is known,
    /// and the names of the modules to insert, in order.
    fn load(&mut self, name: &str) -> (r: (bool, Vec<String>))
        ensures
            final(self)@ == after_load(old(self)@, name@),
            valid(old(self)@),
            r.0 == (old(self)@.loaded.contains(name@) || old(self)@.index.contains_key(name@)),
            views(r.1@) == load(old(self)@.index, name@, fresh(old(self)@.loaded)).order,
    {
        let ghost before = self@;
        let marks = self.take_marks();
        let Marks { set, list } = marks;
        let mut set = set;
        let mut list = list;
        let mut order: Vec<String> = Vec::new();
        assert(views(order@) == Seq::<Seq<char>>::empty());
        let known = load_into(&self.modules, &mut set, name, &mut order);
        let mut i: usize = 0;
        assert(views(order@).take(0) == Seq::<Seq<char>>::empty());
        assert(before.marked + Seq::<Seq<char>>::empty() == before.marked);
        while i < order.len()
            invariant
                i <= order@.len(),
                views(list@) == before.marked + views(order@).take(i as int),
            decreases order@.len() - i,
        {
            let ghost so_far = views(list@);
            let name = order[i].clone();
            list.push(name);
            assert(views(list@) == so_far.push(name@));
            assert(views(order@).take(i + 1) == views(order@).take(i as int).push(order@[i as int]@));
            i = i + 1;
        }
        assert(views(order@).take(i as int) == views(order@));
        proof {
            lemma_load_keeps_valid(before, name@);
        }
        self.marks = Marks { set, list };
        (known, order)
    }

    /// Loads the module `module_name` with what it depends on. Marks every module that
    /// this takes as loaded and returns their names in the order in which they are to be
    /// inserted into the kernel: none where the module was marked already. In an index
    /// without a cycle of dependencies every module stands in that order behind all that
    /// it depends on and that was not marked before.
    pub fn load_module(&mut self, module_name: &str) -> (r: LoadOutcome)
        ensures
            final(self)@ == after_load(old(self)@, module_name@),
            valid(old(self)@),
            valid(final(self)@),
            match r {
                LoadOutcome::Loaded(order) => (old(self)@.loaded.contains(module_name@) || old(
                    self,
                )@.index.contains_key(module_name@)) && views(order@) == load(
                    old(self)@.index,
                    module_name@,
                    fresh(old(self)@.loaded),
                ).order && (acyclic(old(self)@.index) ==> ordered(
                    old(self)@.index,
                    old(self)@.loaded,
                    views(order@),
                )),
                LoadOutcome::Unknown => !old(self)@.loaded.contains(module_name@) && !old(
                    self,
                )@.index.contains_key(module_name@),
            },
    {
        let (known, order) = self.load(module_name);
        proof {
            lemma_load_keeps_valid(old(self)@, module_name@);
        }
        if known {
            LoadOutcome::Loaded(order)
        } else {
            LoadOutcome::Unknown
        }
    }

    /// Takes back the marks after the insertion of the module `module_name` has failed:
    /// the module and whatever was marked after it are marked no more, so that a later
    /// load asks for their insertion again. Returns the names that were unmarked, in the
    /// order in which they had been marked.
    pub fn insertion_failed(&mut self, module_name: &str) -> (r: Vec<String>)
        ensures
            final(self)@ == after_failure(old(self)@, module_name@),
            valid(old(self)@),
            valid(final(self)@),
            views(r@) == old(self)@.marked.skip(index_of(old(self)@.marked, module_name@)),
    {
        let ghost before = self@;
        let marks = self.take_marks();
        let Marks { set, list } = marks;
        let mut set = set;
        let mut list = list;
        let mut at: usize = 0;
        while at < list.len() && !str_eq(list[at].as_str(), module_name)
            invariant
                at <= list@.len(),
                views(list@) == before.marked,
                forall|k: int| 0 <= k < at ==> before.marked[k] != module_name@,
            decreases list@.len() - at,
        {
            assert(views(list@)[at as int] == list@[at as int]@);
            at = at + 1;
        }
        proof {
            if at < list@.len() {
                assert(views(list@)[at as int] == list@[at as int]@);
            }
            crate::text::lemma_index_of_unique(before.marked, module_name@, at as int);
            lemma_failure_keeps_valid(before, module_name@);
        }
        let mut dropped: Vec<String> = Vec::new();
        let mut j: usize = at;
        assert(before.marked.skip(at as int).take(0) == Seq::<Seq<char>>::empty());
        assert(views(dropped@) == Seq::<Seq<char>>::empty());
        while j < list.len()
            invariant
                at <= j <= list@.len(),
                views(list@) == before.marked,
                views(dropped@) == before.marked.skip(at as int).take(j - at),
                forall|x: Seq<char>|
                    set@.contains(x) <==> before.loaded.contains(x) && !before.marked.subrange(
                        at as int,
                        j as int,
                    ).contains(x),
            decreases list@.len() - j,
        {
            let ghost gone = before.marked.subrange(at as int, j as int);
            let ghost more = before.marked.subrange(at as int, j + 1);
            assert(views(list@)[j as int] == list@[j as int]@);
            assert(more == gone.push(list@[j as int]@));
            set.remove(list[j].as_str());
            let ghost so_far = views(dropped@);
            let name = list[j].clone();
            dropped.push(name);
            assert(views(dropped@) == so_far.push(name@));
            assert(before.marked.skip(at as int).take(j + 1 - at) == before.marked.skip(
                at as int,
            ).take(j - at).push(name@));
            assert forall|x: Seq<char>|
                set@.contains(x) <==> before.loaded.contains(x) && !more.contains(x) by {
                if gone.contains(x) {
                    let k = choose|k: int| 0 <= k < gone.len() && gone[k] == x;
                    assert(more[k] == x);
                }
                if more.contains(x) {
                    let k = choose|k: int| 0 <= k < more.len() && more[k] == x;
                    if k < gone.len() {
                        assert(gone[k] == x);
                    }
                }
                assert(more[gone.len() as int] == list@[j as int]@);
            }
            j = j + 1;
        }
        list.truncate(at);
        proof {
            let kept = before.marked.take(at as int);
            let tail = before.marked.subrange(at as int, before.marked.len() as int);
            assert(views(list@) == kept);
            assert(before.marked.skip(at as int).take(j - at) == before.marked.skip(at as int));
            assert forall|x: Seq<char>| set@.contains(x) <==> kept.contains(x) by {
                if kept.contains(x) {
                    let k = choose|k: int| 0 <= k < kept.len() && kept[k] == x;
                    assert(before.marked[k] == x);
                    if tail.contains(x) {
                        let h = choose|h: int| 0 <= h < tail.len() && tail[h] == x;
                        assert(before.marked[at + h] == x);
                    }
                }
                if set@.contains(x) {
                    let k = choose|k: int| 0 <= k < before.marked.len() && before.marked[k] == x;
                    if k >= at {
                        assert(tail[k - at] == x);
                    } else {
                        assert(kept[k] == x);
                    }
                }
            }
            assert(set@ =~= after_failure(before, module_name@).loaded);
        }
        self.marks = Marks { set, list };
        dropped
    }

    /// The index of the first alias rule that matches `modalias`.
    pub fn find_alias(&self, modalias: &str) -> (r: Option<usize>)
        ensures
            is_first_match(
                self@.aliases,
                modalias@,
                match r {
                    Some(i) => Some(i as int),
                    None => None,
                },
            ),
    {
        let mut i: usize = 0;
        while i < self.aliases.len()
            invariant
                i <= self.aliases@.len(),
                forall|k: int|
                    0 <= k < i ==> !glob_matches(
                        #[trigger] rules(self.aliases@)[k].pattern,
                        modalias@,
                    ),
            decreases self.aliases@.len() - i,
        {
            if self.aliases[i].matches(modalias) {
                assert(rules(self.aliases@)[i as int] == self.aliases@[i as int]@);
                return Some(i);
            }
            assert(rules(self.aliases@)[i as int] == self.aliases@[i as int]@);
            i = i + 1;
        }
        None
    }

    /// Loads the module of the first alias rule that matches `modalias`, as
    /// `load_module` does, and returns the names of the modules to insert. Where no rule
    /// matches, or the index does not know the rule's module, nothing changes.
    pub fn load_modalias(&mut self, modalias: &str) -> (r: Vec<String>)
        ensures
            valid(old(self)@),
            valid(final(self)@),
            exists|found: Option<int>|
                is_first_match(old(self)@.aliases, modalias@, found) && match found {
                    Some(i) => final(self)@ == after_load(old(self)@, old(self)@.aliases[i].module)
                        && views(r@) == load(
                        old(self)@.index,
                        old(self)@.aliases[i].module,
                        fresh(old(self)@.loaded),
                    ).order && (acyclic(old(self)@.index) ==> ordered(
                        old(self)@.index,
                        old(self)@.loaded,
                        views(r@),
                    )),
                    None => final(self)@ == old(self)@ && r@.len() == 0,
                },
    {
        proof {
            use_type_invariant(&*self);
        }
        match self.find_alias(modalias) {
            Some(i) => {
                assert(rules(self.aliases@)[i as int] == self.aliases@[i as int]@);
                assert(is_first_match(old(self)@.aliases, modalias@, Some(i as int)));
                let module = self.aliases[i].module.clone();
                let (_, order) = self.load(module.as_str());
                proof {
                    lemma_load_keeps_valid(old(self)@, module@);
                }
                order
            },
            None => {
                assert(is_first_match(old(self)@.aliases, modalias@, None));
                let order: Vec<String> = Vec::new();
                order
            },
        }
    }

    /// The names that are marked as loaded, in the order in which they were marked.
    pub fn marked(&self) -> (r: Vec<String>)
        ensures
            views(r@) == self@.marked,
            valid(self@),
    {
        proof {
            use_type_invariant(self);
        }
        self.marks.list.clone()
    }

    /// The module named `name`, if the index has one.
    pub fn by_name(&self, name: &str) -> (r: Option<&Module>)
        ensures
            match r {
                Some(m) => self@.index.contains_key(name@) && self@.index[name@] == m@,
                None => !self@.index.contains_key(name@),
            },
    {
        self.modules.get(name)
    }

    /// The module that serves devices with the modalias `modalias`: the module of the
    /// first alias rule that matches, if the index has it.
    pub fn by_modalias(&self, modalias: &str) -> (r: Option<&Module>)
        ensures
            exists|found: Option<int>|
                is_first_match(self@.aliases, modalias@, found) && match found {
                    Some(i) => match r {
                        Some(m) => self@.index.contains_key(self@.aliases[i].module)
                            && self@.index[self@.aliases[i].module] == m@,
                        None => !self@.index.contains_key(self@.aliases[i].module),
                    },
                    None => r is None,
                },
    {
        match self.find_alias(modalias) {
            Some(i) => {
                assert(rules(self.aliases@)[i as int] == self.aliases@[i as int]@);
                assert(is_first_match(self@.aliases, modalias@, Some(i as int)));
                self.modules.get(self.aliases[i].module.as_str())
            },
            None => {
                assert(is_first_match(self@.aliases, modalias@, None));
                None
            },
        }
    }

    /// Whether `module_name` is marked as loaded.
    pub fn is_loaded(&self, module_name: &str) -> (r: bool)
        ensures
            r == self@.loaded.contains(module_name@),
    {
        self.marks.set.contains(module_name)
    }

    /// The path of the file of the module `module_name`, under the kernel's module
    /// directory, if the index knows the module.
    pub fn module_file(&self, module_name: &str) -> (r: Option<String>)
        ensures
            match r {
                Some(path) => self@.index.contains_key(module_name@) && path@ == joined(
                    self@.kernel_root,
                    self@.index[module_name@].filename,
                ),
                None => !self@.index.contains_key(module_name@),
            },
    {
        match self.modules.get(module_name) {
            Some(module) => Some(join(self.kernel_root.as_str(), module.filename.as_str())),
            None => None,
        }
    }
}

/// How the file of a module is compressed.
#[derive(Debug, Clone, Copy, PartialEq, Eq, Structural)]
pub enum Compression {
    Xz,
    Zstandard,
    /// Neither of the two: the loader cannot unpack the file.
    Unknown,
}

/// Why a module could not be handed to the kernel.
#[derive(Debug, Clone, Copy, PartialEq, Eq, Structural)]
pub enum LoadError {
    /// The file does not unpack as what it claims to be.
    DecompressFailed,
    /// The kernel refused the module, with this error number.
    ModuleLoadFailed(i32),
}

/// The error number with which the kernel says that a module is loaded already.
pub const EEXIST: i32 = 17;

/// The format that `file_format::FileFormat::from_bytes` finds in `bytes`, as far as
/// the loader tells formats apart.
pub uninterp spec fn sniffed(bytes: Seq<u8>) -> Compression;

/// What `xz2::bufread::XzDecoder` reads from the stream `bytes` up to its end, or
/// `None` where reading fails.
pub uninterp spec fn xz_decoded(bytes: Seq<u8>) -> Option<Seq<u8>>;

/// What `zstd::stream::decode_all` makes of `bytes`, or `None` where it fails.
pub uninterp spec fn zstd_decoded(bytes: Seq<u8>) -> Option<Seq<u8>>;

/// `file_format::FileFormat::from_bytes`: the format that the signature at the start
/// of `bytes` stands for.
#[verifier::external_body]
fn sniff(bytes: &[u8]) -> (r: Compression)
    ensures
        r == sniffed(bytes@),
{
    match FileFormat::from_bytes(bytes) {
        FileFormat::Xz => Compression::Xz,
        FileFormat::Zstandard => Compression::Zstandard,
        _ => Compression::Unknown,
    }
}

/// `xz2::bufread::XzDecoder::new` and its `read_to_end`: the xz stream `bytes`,
/// unpacked.
#[verifier::external_body]
pub(crate) fn xz_decode(bytes: &[u8]) -> (r: Option<Vec<u8>>)
    ensures
        match r {
            Some(data) => xz_decoded(bytes@) == Some(data@),
            None => xz_decoded(bytes@) is None,
        },
{
    let mut data = Vec::new();
    match XzDecoder::new(bytes).read_to_end(&mut data) {
        Ok(_) => Some(data),
        Err(_) => None,
    }
}

/// `zstd::stream::decode_all`: the zstd frames `bytes`, unpacked.
#[verifier::external_body]
fn zstd_decode(bytes: &[u8]) -> (r: Option<Vec<u8>>)
    ensures
        match r {
            Some(data) => zstd_decoded(bytes@) == Some(data@),
            None => zstd_decoded(bytes@) is None,
        },
{
    zstd::stream::decode_all(bytes).ok()
}

/// What is handed to the kernel for a module file of the format `format` whose
/// unpacking gave `decoded`: nothing for a file of unknown format, which is passed
/// over; the unpacked module; or an error where unpacking failed.
pub open spec fn image_of(format: Compression, decoded: Option<Seq<u8>>) -> Result<
    Option<Seq<u8>>,
    LoadError,
> {
    match format {
        Compression::Unknown => Ok(None),
        _ => match decoded {
            Some(data) => Ok(Some(data)),
            None => Err(LoadError::DecompressFailed),
        },
    }
}

/// What unpacking `blob` as `format` gives, `None` for an unknown format.
pub open spec fn decoded_as(format: Compression, blob: Seq<u8>) -> Option<Seq<u8>> {
    match format {
        Compression::Xz => xz_decoded(blob),
        Compression::Zstandard => zstd_decoded(blob),
        Compression::Unknown => None,
    }
}

/// The bytes of `data`, where there are any.
pub open spec fn option_view(data: Option<Vec<u8>>) -> Option<Seq<u8>> {
    match data {
        Some(d) => Some(d@),
        None => None,
    }
}

/// `image`, with the bytes of the module as a sequence.
pub open spec fn image_view(image: Result<Option<Vec<u8>>, LoadError>) -> Result<
    Option<Seq<u8>>,
    LoadError,
> {
    match image {
        Ok(data) => Ok(option_view(data)),
        Err(e) => Err(e),
    }
}

/// What is handed to the kernel for a module file of the format `format` whose
/// unpacking gave `decoded`.
pub fn module_image(format: Compression, decoded: Option<Vec<u8>>) -> (r: Result<
    Option<Vec<u8>>,
    LoadError,
>)
    ensures
        image_view(r) == image_of(format, option_view(decoded)),
{
    match format {
        Compression::Unknown => Ok(None),
        _ => match decoded {
            Some(data) => Ok(Some(data)),
            None => Err(LoadError::DecompressFailed),
        },
    }
}

/// Finds out how the module file `blob` is compressed and unpacks it.
pub fn decode_module(blob: &[u8]) -> (r: Result<Option<Vec<u8>>, LoadError>)
    ensures
        image_view(r) == image_of(sniffed(blob@), decoded_as(sniffed(blob@), blob@)),
{
    let format = sniff(blob);
    let decoded = match format {
        Compression::Xz => xz_decode(blob),
        Compression::Zstandard => zstd_decode(blob),
        Compression::Unknown => None,
    };
    module_image(format, decoded)
}

/// What the kernel's answer to an insertion means: `errno` is the error number of a
/// failed `init_module`, `None` after success. A module that the kernel has already
/// counts as inserted.
pub fn insertion_result(errno: Option<i32>) -> (r: Result<(), LoadError>)
    ensures
        r == match errno {
            None => Ok::<(), LoadError>(()),
            Some(e) => if e == EEXIST {
                Ok(())
            } else {
                Err(LoadError::ModuleLoadFailed(e))
            },
        },
{
    match errno {
        None => Ok(()),
        Some(e) => if e == EEXIST {
            Ok(())
        } else {
            Err(LoadError::ModuleLoadFailed(e))
        },
    }
}

} // verus!
