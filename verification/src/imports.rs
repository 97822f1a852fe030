//! Import management for generated code.
//!
//! Prelude, `alloc` and runtime types are always emitted as fully-qualified
//! paths so proto-defined types of the same name cannot shadow them. When
//! package-root imports are enabled, the paths requested at the package
//! root are collected in a first pass, turned into `use`-backed short names
//! by [`RootImports::assign`] — in sorted order, so the result does not
//! depend on the order they were requested in — and resolved in a second
//! pass.

use vstd::prelude::*;
use crate::name_set::{lex_lt, strictly_sorted, NameMap, NameSet};
use crate::string_map::StringMap;
use crate::text::{chars_of, extend_lit, extend_slice, starts_with, starts_with_at};

verus! {

/// Single source of truth for type-path emission in generated code: every
/// prelude type is emitted fully qualified. Stateless.
pub struct ImportResolver;

impl ImportResolver {
    /// The resolver.
    pub fn new() -> (r: Self)
        ensures
            r == ImportResolver,
    {
        ImportResolver
    }
}

// ── Fixed name lists ────────────────────────────────────────────────────────

/// Runtime and prelude types eligible for package-root import, as
/// `(qualified path, short name)`.
pub open spec fn runtime_imports() -> Seq<(&'static str, &'static str)> {
    seq![
        ("::buffa::EnumValue", "EnumValue"),
        ("::buffa::__private::HashMap", "HashMap"),
        ("::buffa::MessageField", "MessageField"),
        ("::core::option::Option", "Option"),
        ("::buffa::alloc::string::String", "String"),
        ("::buffa::alloc::vec::Vec", "Vec"),
    ]
}

/// Names that package-root emissions reference bare, which proto-type
/// imports must never claim.
pub open spec fn root_bare_referenced() -> Seq<&'static str> {
    seq![
        "Box", "Clone", "Copy", "Debug", "Default", "Eq", "From", "Hash", "Into", "None",
        "PartialEq", "Result", "Self", "Send", "Some", "Sync", "bool", "f32", "f64", "i32",
        "i64", "serde", "str", "u8", "u32", "u64",
    ]
}

pub open spec fn is_runtime_path(p: Seq<char>) -> bool {
    exists|i: int| 0 <= i < runtime_imports().len() && p == (#[trigger] runtime_imports()[i]).0@
}

pub open spec fn is_runtime_leaf(n: Seq<char>) -> bool {
    exists|i: int| 0 <= i < runtime_imports().len() && n == (#[trigger] runtime_imports()[i]).1@
}

pub open spec fn is_bare_referenced(n: Seq<char>) -> bool {
    exists|i: int| 0 <= i < root_bare_referenced().len() && n == (#[trigger] root_bare_referenced()[i])@
}

/// Path keywords a `use` binding can never take.
pub open spec fn is_path_keyword(n: Seq<char>) -> bool {
    n == "self"@ || n == "super"@ || n == "Self"@ || n == "crate"@
}

/// Whether a proto-type path may claim `name` as a package-root short name.
pub open spec fn proto_claimable(name: Seq<char>, occupied: Set<Seq<char>>) -> bool {
    &&& !occupied.contains(name)
    &&& !is_runtime_leaf(name)
    &&& !is_bare_referenced(name)
    &&& !is_path_keyword(name)
    &&& name.len() > 0
}

/// Whether `path` is a candidate for shortening: `::`-, `crate::`- or
/// `super::`-rooted.
pub open spec fn shortenable_spec(path: Seq<char>) -> bool {
    starts_with(path, "::"@) || starts_with(path, "crate::"@) || starts_with(path, "super::"@)
}

/// The start of the last `::` in `s` beginning at or below `j`.
pub open spec fn last_sep_from(s: Seq<char>, j: int) -> Option<int>
    decreases j + 1,
{
    if j < 0 {
        None
    } else if j + 1 < s.len() && s[j] == ':' && s[j + 1] == ':' {
        Some(j)
    } else {
        last_sep_from(s, j - 1)
    }
}

/// The start of the last `::` in `s`.
pub open spec fn last_sep(s: Seq<char>) -> Option<int> {
    last_sep_from(s, s.len() - 2)
}

pub proof fn lemma_last_sep_from(s: Seq<char>, j: int)
    ensures
        last_sep_from(s, j) matches Some(k) ==> 0 <= k <= j && k + 1 < s.len() && s[k] == ':' && s[k + 1] == ':',
    decreases j + 1,
{
    if j >= 0 && !(j + 1 < s.len() && s[j] == ':' && s[j + 1] == ':') {
        lemma_last_sep_from(s, j - 1);
    }
}

/// The text after the last `::` of `parent`, or all of it.
pub open spec fn last_segment(parent: Seq<char>) -> Seq<char> {
    match last_sep(parent) {
        Some(k) => parent.skip(k + 2),
        None => parent,
    }
}

// ── The assignment ──────────────────────────────────────────────────────────

/// Package-root bindings: qualified path to emitted short form, and claimed
/// short name to `use` target.
pub struct ImportsState {
    pub resolved: Map<Seq<char>, Seq<char>>,
    pub bindings: Map<Seq<char>, Seq<char>>,
}

/// Different paths never get the same short form: each short form reads
/// back as exactly one path.
pub proof fn law_short_forms_distinct(paths: Seq<Seq<char>>, occupied: Set<Seq<char>>, p: Seq<char>, q: Seq<char>)
    requires
        p != q,
        assign_spec(paths, occupied).resolved.contains_key(p),
        assign_spec(paths, occupied).resolved.contains_key(q),
    ensures
        assign_spec(paths, occupied).resolved[p] != assign_spec(paths, occupied).resolved[q],
{
    law_assignment_sound(paths, occupied);
}

/// Runtime types claim their short names first: the first `k` entries of
/// [`runtime_imports`].
pub open spec fn runtime_phase(collected: Set<Seq<char>>, occupied: Set<Seq<char>>, k: int) -> ImportsState
    decreases k,
{
    if k <= 0 || k > runtime_imports().len() {
        ImportsState { resolved: Map::empty(), bindings: Map::empty() }
    } else {
        let st = runtime_phase(collected, occupied, k - 1);
        let (p, s) = runtime_imports()[k - 1];
        if collected.contains(p@) && !occupied.contains(s@) {
            ImportsState { resolved: st.resolved.insert(p@, s@), bindings: st.bindings.insert(s@, p@) }
        } else {
            st
        }
    }
}

/// The proto-type alias ladder for one collected path: bare leaf name, then
/// parent module plus leaf, else left fully qualified.
pub open spec fn path_step(st: ImportsState, path: Seq<char>, occupied: Set<Seq<char>>) -> ImportsState {
    if st.resolved.contains_key(path) || is_runtime_path(path) || !shortenable_spec(path) {
        st
    } else {
        match last_sep(path) {
            None => st,
            Some(j) => {
                let parent = path.take(j);
                let leaf = path.skip(j + 2);
                if proto_claimable(leaf, occupied) && !st.bindings.contains_key(leaf) {
                    ImportsState { resolved: st.resolved.insert(path, leaf), bindings: st.bindings.insert(leaf, path) }
                } else if proto_claimable(leaf, occupied) && st.bindings[leaf] == path {
                    ImportsState { resolved: st.resolved.insert(path, leaf), bindings: st.bindings }
                } else {
                    let pl = last_segment(parent);
                    let short = pl + "::"@ + leaf;
                    if proto_claimable(pl, occupied) && !st.bindings.contains_key(pl) {
                        ImportsState { resolved: st.resolved.insert(path, short), bindings: st.bindings.insert(pl, parent) }
                    } else if proto_claimable(pl, occupied) && st.bindings[pl] == parent {
                        ImportsState { resolved: st.resolved.insert(path, short), bindings: st.bindings }
                    } else {
                        st
                    }
                }
            },
        }
    }
}

/// The ladder applied to the first `n` paths in sorted order.
pub open spec fn path_fold(st: ImportsState, paths: Seq<Seq<char>>, n: int, occupied: Set<Seq<char>>) -> ImportsState
    decreases n,
{
    if n <= 0 || n > paths.len() {
        st
    } else {
        path_step(path_fold(st, paths, n - 1, occupied), paths[n - 1], occupied)
    }
}

/// The bindings for a collected set (in sorted order `paths`) given the
/// names already occupied at the package root.
pub open spec fn assign_spec(paths: Seq<Seq<char>>, occupied: Set<Seq<char>>) -> ImportsState {
    path_fold(runtime_phase(paths.to_set(), occupied, 6), paths, paths.len() as int, occupied)
}

} // verus!

verus! {

fn eq_lit(s: &[char], lit: &str) -> (r: bool)
    ensures
        r == (s@ == lit@),
{
    let l = chars_of(lit);
    crate::string_map::chars_eq(s, l.as_slice())
}

fn runtime_table() -> (t: [(&'static str, &'static str); 6])
    ensures
        t@ == runtime_imports(),
{
    let t: [(&'static str, &'static str); 6] = [
        ("::buffa::EnumValue", "EnumValue"),
        ("::buffa::__private::HashMap", "HashMap"),
        ("::buffa::MessageField", "MessageField"),
        ("::core::option::Option", "Option"),
        ("::buffa::alloc::string::String", "String"),
        ("::buffa::alloc::vec::Vec", "Vec"),
    ];
    assert(t@ =~= runtime_imports());
    t
}

fn is_runtime_path_exec(p: &[char]) -> (r: bool)
    ensures
        r == is_runtime_path(p@),
{
    let t = runtime_table();
    let mut i: usize = 0;
    while i < 6
        invariant
            t@ == runtime_imports(),
            i <= 6,
            forall|j: int| 0 <= j < i ==> p@ != (#[trigger] runtime_imports()[j]).0@,
        decreases 6 - i,
    {
        if eq_lit(p, t[i].0) {
            return true;
        }
        i = i + 1;
    }
    false
}

fn is_runtime_leaf_exec(n: &[char]) -> (r: bool)
    ensures
        r == is_runtime_leaf(n@),
{
    let t = runtime_table();
    let mut i: usize = 0;
    while i < 6
        invariant
            t@ == runtime_imports(),
            i <= 6,
            forall|j: int| 0 <= j < i ==> n@ != (#[trigger] runtime_imports()[j]).1@,
        decreases 6 - i,
    {
        if eq_lit(n, t[i].1) {
            return true;
        }
        i = i + 1;
    }
    false
}

fn is_bare_referenced_exec(n: &[char]) -> (r: bool)
    ensures
        r == is_bare_referenced(n@),
{
    let t: [&'static str; 26] = [
        "Box", "Clone", "Copy", "Debug", "Default", "Eq", "From", "Hash", "Into", "None",
        "PartialEq", "Result", "Self", "Send", "Some", "Sync", "bool", "f32", "f64", "i32",
        "i64", "serde", "str", "u8", "u32", "u64",
    ];
    assert(t@ =~= root_bare_referenced());
    let mut i: usize = 0;
    while i < 26
        invariant
            t@ == root_bare_referenced(),
            i <= 26,
            forall|j: int| 0 <= j < i ==> n@ != (#[trigger] root_bare_referenced()[j])@,
        decreases 26 - i,
    {
        if eq_lit(n, t[i]) {
            return true;
        }
        i = i + 1;
    }
    false
}

fn proto_claimable_exec(name: &[char], occupied: &NameSet) -> (r: bool)
    ensures
        r == proto_claimable(name@, occupied@),
{
    !occupied.contains_chars(name) && !is_runtime_leaf_exec(name) && !is_bare_referenced_exec(name)
        && !(eq_lit(name, "self") || eq_lit(name, "super") || eq_lit(name, "Self") || eq_lit(
        name,
        "crate",
    )) && name.len() > 0
}

fn shortenable_chars(path: &[char]) -> (r: bool)
    ensures
        r == shortenable_spec(path@),
{
    assert(path@.skip(0) =~= path@);
    starts_with_at(path, 0, "::") || starts_with_at(path, 0, "crate::") || starts_with_at(
        path,
        0,
        "super::",
    )
}

/// Whether `path` is a candidate for package-root import shortening: only
/// `::`-, `crate::`- and `super::`-rooted paths qualify.
pub fn shortenable(path: &str) -> (r: bool)
    ensures
        r == shortenable_spec(path@),
{
    let c = chars_of(path);
    shortenable_chars(c.as_slice())
}

fn last_sep_exec(s: &[char]) -> (r: Option<usize>)
    ensures
        crate::sanitize::as_int(r) == last_sep(s@),
{
    let n = s.len();
    if n < 2 {
        return None;
    }
    let mut j: usize = n - 1;
    // Invariant: nothing at or above j (as a start below n - 1) matched yet.
    while j > 0
        invariant
            n == s@.len(),
            n >= 2,
            j <= n - 1,
            last_sep(s@) == last_sep_from(s@, j - 1),
        decreases j,
    {
        let k = j - 1;
        if s[k] == ':' && s[k + 1] == ':' {
            return Some(k);
        }
        j = k;
    }
    None
}

/// Package-root import bindings for one package.
pub struct RootImports {
    resolved: StringMap,
    bindings: NameMap,
}

impl RootImports {
    /// The bindings as maps: path to short form, short name to `use` target.
    pub closed spec fn state(&self) -> ImportsState {
        ImportsState { resolved: self.resolved@, bindings: self.bindings.view() }
    }

    /// The claimed short names in increasing order.
    pub closed spec fn binding_names(&self) -> Seq<Seq<char>> {
        self.bindings.key_seq()
    }

    /// Assign short names to the collected paths.
    ///
    /// `occupied` holds the names already present at the package root.
    /// Runtime types claim their short names first; proto-type paths then
    /// walk the alias ladder in sorted order — bare leaf name, parent module
    /// plus leaf, fully qualified — so the result is independent of the
    /// order paths were requested in.
    pub fn assign(collected: &NameSet, occupied: &NameSet) -> (r: Self)
        ensures
            r.state() == assign_spec(collected.elems(), occupied@),
    {
        let mut resolved = StringMap::new();
        let mut bindings = NameMap::new();
        let t = runtime_table();
        let mut k: usize = 0;
        while k < 6
            invariant
                t@ == runtime_imports(),
                k <= 6,
                (ImportsState { resolved: resolved@, bindings: bindings.view() }) == runtime_phase(
                    collected@,
                    occupied@,
                    k as int,
                ),
            decreases 6 - k,
        {
            let (path, short) = t[k];
            if collected.contains(path) && !occupied.contains(short) {
                bindings.insert_chars(chars_of(short), String::from_str(path));
                resolved.insert_chars(chars_of(path), String::from_str(short));
            }
            k = k + 1;
        }
        let n = collected.len();
        let mut i: usize = 0;
        while i < n
            invariant
                n == collected.elems().len(),
                i <= n,
                (ImportsState { resolved: resolved@, bindings: bindings.view() }) == path_fold(
                    runtime_phase(collected@, occupied@, 6),
                    collected.elems(),
                    i as int,
                    occupied@,
                ),
            decreases n - i,
        {
            let p = collected.get(i);
            Self::step(p, occupied, &mut resolved, &mut bindings);
            i = i + 1;
        }
        RootImports { resolved, bindings }
    }

    fn step(p: &Vec<char>, occupied: &NameSet, resolved: &mut StringMap, bindings: &mut NameMap)
        ensures
            (ImportsState { resolved: final(resolved)@, bindings: final(bindings).view() }) == path_step(
                (ImportsState { resolved: old(resolved)@, bindings: old(bindings).view() }),
                p@,
                occupied@,
            ),
    {
        let path = p.as_slice();
        if resolved.get_chars(p).is_some() || is_runtime_path_exec(path) || !shortenable_chars(path) {
            return;
        }
        let j = match last_sep_exec(path) {
            Some(j) => j,
            None => return,
        };
        proof {
            crate::imports::lemma_last_sep_from(p@, p@.len() - 2);
            assert(last_sep(p@) == Some(j as int));
        }
        assert(j + 1 < path.len());
        let parent = crate::text::slice_vec(path, 0, j);
        let leaf = crate::text::slice_vec(path, j + 2, path.len());
        assert(parent@ =~= p@.take(j as int));
        assert(leaf@ =~= p@.skip(j + 2));
        let leaf_ok = proto_claimable_exec(leaf.as_slice(), occupied);
        if leaf_ok {
            match bindings.get_chars(leaf.as_slice()) {
                None => {
                    let ps = crate::text::string_from_chars(p);
                    let ls = crate::text::string_from_chars(&leaf);
                    bindings.insert_chars(leaf, ps);
                    resolved.insert_chars(crate::text::slice_vec(path, 0, path.len()), ls);
                    assert(p@.subrange(0, p@.len() as int) =~= p@);
                    return;
                },
                Some(existing) => {
                    let ec = chars_of(existing.as_str());
                    if crate::string_map::chars_eq(ec.as_slice(), path) {
                        let ls = crate::text::string_from_chars(&leaf);
                        resolved.insert_chars(crate::text::slice_vec(path, 0, path.len()), ls);
                        assert(p@.subrange(0, p@.len() as int) =~= p@);
                        return;
                    }
                },
            }
        }
        let pl = match last_sep_exec(parent.as_slice()) {
            Some(k) => {
                proof {
                    crate::imports::lemma_last_sep_from(parent@, parent@.len() - 2);
                }
                crate::text::slice_vec(parent.as_slice(), k + 2, parent.len())
            },
            None => crate::text::slice_vec(parent.as_slice(), 0, parent.len()),
        };
        assert(pl@ =~= last_segment(parent@));
        let mut short: Vec<char> = Vec::new();
        extend_slice(&mut short, pl.as_slice(), 0, pl.len());
        extend_lit(&mut short, "::");
        extend_slice(&mut short, leaf.as_slice(), 0, leaf.len());
        assert(pl@.subrange(0, pl@.len() as int) =~= pl@);
        assert(leaf@.subrange(0, leaf@.len() as int) =~= leaf@);
        if proto_claimable_exec(pl.as_slice(), occupied) {
            let claimed = match bindings.get_chars(pl.as_slice()) {
                None => {
                    let parent_s = crate::text::string_from_chars(&parent);
                    bindings.insert_chars(pl, parent_s);
                    true
                },
                Some(existing) => {
                    let ec = chars_of(existing.as_str());
                    crate::string_map::chars_eq(ec.as_slice(), parent.as_slice())
                },
            };
            if claimed {
                let ss = crate::text::string_from_chars(&short);
                resolved.insert_chars(crate::text::slice_vec(path, 0, path.len()), ss);
                assert(p@.subrange(0, p@.len() as int) =~= p@);
            }
        }
    }

    /// The short form assigned to `path`, if any.
    pub fn resolve(&self, path: &str) -> (r: Option<&str>)
        ensures
            r is Some <==> self.state().resolved.contains_key(path@),
            r matches Some(s) ==> s@ == self.state().resolved[path@],
    {
        match self.resolved.get(path) {
            Some(s) => Some(s.as_str()),
            None => None,
        }
    }

    /// The `use` targets backing the short names, in increasing order of
    /// short name.
    pub fn use_targets(&self) -> (r: Vec<String>)
        ensures
            r@.len() == self.binding_names().len(),
            strictly_sorted(self.binding_names()),
            forall|k: Seq<char>| #[trigger] self.state().bindings.contains_key(k) <==> self.binding_names().contains(k),
            forall|i: int| 0 <= i < r@.len() ==> #[trigger] r@[i]@ == self.state().bindings[self.binding_names()[i]],
    {
        let _ = self.bindings.is_ordered();
        let mut out: Vec<String> = Vec::new();
        let mut i: usize = 0;
        while i < self.bindings.len()
            invariant
                i <= self.binding_names().len(),
                self.bindings.key_seq().len() == self.bindings.value_seq().len(),
                forall|j: int| 0 <= j < self.bindings.key_seq().len() ==> #[trigger] self.bindings.view()[self.bindings.key_seq()[j]] == self.bindings.value_seq()[j],
                out@.len() == i,
                forall|j: int| 0 <= j < i ==> #[trigger] out@[j]@ == self.state().bindings[self.binding_names()[j]],
            decreases self.binding_names().len() - i,
        {
            let v = self.bindings.value_at(i).clone();
            out.push(v);
            i = i + 1;
        }
        out
    }
}

} // verus!

verus! {

// ── Properties of the assignment ───────────────────────────────────────────

/// `s` holds `::` starting at `i`.
pub open spec fn sep_at(s: Seq<char>, i: int) -> bool {
    0 <= i && i + 1 < s.len() && s[i] == ':' && s[i + 1] == ':'
}

/// Reading `short` through the `use` bindings gives `path`: its first
/// segment (all of it when it has no `::`) is a bound name whose target,
/// followed by the rest of `short`, is `path`.
pub open spec fn denotes(bindings: Map<Seq<char>, Seq<char>>, short: Seq<char>, path: Seq<char>) -> bool {
    match last_sep(short) {
        None => bindings.contains_key(short) && bindings[short] == path,
        Some(k) => bindings.contains_key(short.take(k)) && bindings[short.take(k)] + short.skip(k) == path,
    }
}

/// The first segment of a short form: the name its `use` binding supplies.
pub open spec fn head(short: Seq<char>) -> Seq<char> {
    match last_sep(short) {
        None => short,
        Some(k) => short.take(k),
    }
}

/// What every state of the assignment keeps.
pub open spec fn assignment_sound(st: ImportsState, collected: Set<Seq<char>>, occupied: Set<Seq<char>>) -> bool {
    &&& forall|p: Seq<char>| #[trigger]
        st.resolved.contains_key(p) ==> collected.contains(p) && shortenable_spec(p) && denotes(
            st.bindings,
            st.resolved[p],
            p,
        )
    &&& forall|b: Seq<char>| #[trigger]
        st.bindings.contains_key(b) ==> !occupied.contains(b) && !is_bare_referenced(b) && !is_path_keyword(b)
    &&& forall|i: int|
        #![trigger runtime_imports()[i]]
        0 <= i < 6 && st.bindings.contains_key(runtime_imports()[i].1@) ==> st.bindings[runtime_imports()[i].1@]
            == runtime_imports()[i].0@
    &&& forall|i: int|
        #![trigger runtime_imports()[i]]
        0 <= i < 6 && st.resolved.contains_key(runtime_imports()[i].0@) ==> st.resolved[runtime_imports()[i].0@]
            == runtime_imports()[i].1@
    &&& forall|b: Seq<char>| #[trigger]
        st.bindings.contains_key(b) ==> exists|p: Seq<char>| #[trigger]
            st.resolved.contains_key(p) && head(st.resolved[p]) == b
    &&& forall|b: Seq<char>| #[trigger] st.bindings.contains_key(b) ==> last_segment(st.bindings[b]) == b
    &&& forall|p: Seq<char>| #[trigger] st.resolved.contains_key(p) ==> short_shape(p, st.resolved[p])
    &&& forall|p: Seq<char>| #[trigger]
        st.resolved.contains_key(p) && !is_runtime_path(p) ==> proto_claimable(head(st.resolved[p]), occupied)
}

/// `p` without its last `::` segment (all of it when it has none).
pub open spec fn parent_of(p: Seq<char>) -> Seq<char> {
    match last_sep(p) {
        Some(j) => p.take(j),
        None => p,
    }
}

/// `s` is `p`'s last segment, or the last segment of `p`'s parent module
/// followed by `::` and `p`'s last segment.
pub open spec fn short_shape(p: Seq<char>, s: Seq<char>) -> bool {
    s == last_segment(p) || s == last_segment(parent_of(p)) + "::"@ + last_segment(p)
}

proof fn lemma_last_sep_skip(s: Seq<char>, k: int, j: int)
    requires
        -1 <= k <= j,
        forall|i: int| k < i <= j ==> !#[trigger] sep_at(s, i),
    ensures
        last_sep_from(s, j) == last_sep_from(s, k),
    decreases j - k,
{
    if k < j {
        assert(!sep_at(s, j));
        lemma_last_sep_skip(s, k, j - 1);
    }
}

proof fn lemma_last_sep_none_after(s: Seq<char>, j: int)
    ensures
        last_sep_from(s, j) matches Some(k) ==> forall|i: int| k < i <= j ==> !#[trigger] sep_at(s, i),
        last_sep_from(s, j) is None ==> forall|i: int| i <= j ==> !#[trigger] sep_at(s, i),
    decreases j + 1,
{
    if j >= 0 && !sep_at(s, j) {
        lemma_last_sep_none_after(s, j - 1);
    }
}

/// What follows the last `::` holds no `::` and does not start with `:`.
proof fn lemma_leaf(p: Seq<char>, j: int)
    requires
        last_sep(p) == Some(j),
    ensures
        0 <= j,
        j + 1 < p.len(),
        p[j] == ':',
        p[j + 1] == ':',
        forall|i: int| !#[trigger] sep_at(p.skip(j + 2), i),
        p.skip(j + 2).len() > 0 ==> p.skip(j + 2)[0] != ':',
        p =~= p.take(j) + "::"@ + p.skip(j + 2),
{
    reveal_strlit("::");
    lemma_last_sep_from(p, p.len() - 2);
    lemma_last_sep_none_after(p, p.len() - 2);
    let leaf = p.skip(j + 2);
    assert forall|i: int| !#[trigger] sep_at(leaf, i) by {
        if sep_at(leaf, i) {
            assert(sep_at(p, j + 2 + i));
        }
    }
    if leaf.len() > 0 {
        assert(!sep_at(p, j + 1));
    }
}

proof fn lemma_no_sep(s: Seq<char>)
    requires
        forall|i: int| !#[trigger] sep_at(s, i),
    ensures
        last_sep(s) is None,
{
    if s.len() >= 1 {
        lemma_last_sep_skip(s, -1, s.len() - 2);
    }
}

proof fn lemma_rung_two_short(pl: Seq<char>, leaf: Seq<char>)
    requires
        forall|i: int| !#[trigger] sep_at(leaf, i),
        leaf.len() > 0 ==> leaf[0] != ':',
    ensures
        last_sep(pl + "::"@ + leaf) == Some(pl.len() as int),
        (pl + "::"@ + leaf).take(pl.len() as int) == pl,
        (pl + "::"@ + leaf).skip(pl.len() as int) == "::"@ + leaf,
{
    reveal_strlit("::");
    let s = pl + "::"@ + leaf;
    let n = pl.len() as int;
    assert forall|i: int| n < i <= s.len() - 2 implies !#[trigger] sep_at(s, i) by {
        if i > n + 1 {
            assert(!sep_at(leaf, i - n - 2));
        }
    }
    lemma_last_sep_skip(s, n, s.len() - 2);
    assert(sep_at(s, n));
    assert(s.take(n) =~= pl);
    assert(s.skip(n) =~= "::"@ + leaf);
}

proof fn lemma_denotes_grow(b: Map<Seq<char>, Seq<char>>, x: Seq<char>, v: Seq<char>, s: Seq<char>, p: Seq<char>)
    requires
        denotes(b, s, p),
        !b.contains_key(x),
    ensures
        denotes(b.insert(x, v), s, p),
{
}

proof fn lemma_literal_no_sep(s: Seq<char>)
    requires
        forall|i: int| 0 <= i < s.len() ==> s[i] != ':',
    ensures
        last_sep(s) is None,
{
    lemma_no_sep(s);
}

proof fn lemma_segment_of(pre: Seq<char>, leaf: Seq<char>, p: Seq<char>)
    requires
        p == pre + "::"@ + leaf,
        leaf.len() > 0,
        forall|k: int| 0 <= k < leaf.len() ==> leaf[k] != ':',
    ensures
        last_segment(p) == leaf,
{
    reveal_strlit("::");
    assert forall|i: int| !#[trigger] sep_at(leaf, i) by {
        if sep_at(leaf, i) {
            assert(leaf[i] == ':');
        }
    }
    lemma_rung_two_short(pre, leaf);
    assert(p.skip(pre.len() + 2int) =~= leaf);
}

/// A runtime type's short name is the last segment of its path.
proof fn lemma_runtime_segments()
    ensures
        forall|i: int|
            #![trigger runtime_imports()[i]]
            0 <= i < 6 ==> last_segment(runtime_imports()[i].0@) == runtime_imports()[i].1@,
{
    reveal_strlit("::");
    reveal_strlit("::buffa");
    reveal_strlit("::buffa::__private");
    reveal_strlit("::core::option");
    reveal_strlit("::buffa::alloc::string");
    reveal_strlit("::buffa::alloc::vec");
    reveal_strlit("::buffa::EnumValue");
    reveal_strlit("::buffa::__private::HashMap");
    reveal_strlit("::buffa::MessageField");
    reveal_strlit("::core::option::Option");
    reveal_strlit("::buffa::alloc::string::String");
    reveal_strlit("::buffa::alloc::vec::Vec");
    reveal_strlit("EnumValue");
    reveal_strlit("HashMap");
    reveal_strlit("MessageField");
    reveal_strlit("Option");
    reveal_strlit("String");
    reveal_strlit("Vec");
    let t = runtime_imports();
    assert(t[0].0@ =~= "::buffa"@ + "::"@ + "EnumValue"@);
    lemma_segment_of("::buffa"@, "EnumValue"@, t[0].0@);
    assert(t[1].0@ =~= "::buffa::__private"@ + "::"@ + "HashMap"@);
    lemma_segment_of("::buffa::__private"@, "HashMap"@, t[1].0@);
    assert(t[2].0@ =~= "::buffa"@ + "::"@ + "MessageField"@);
    lemma_segment_of("::buffa"@, "MessageField"@, t[2].0@);
    assert(t[3].0@ =~= "::core::option"@ + "::"@ + "Option"@);
    lemma_segment_of("::core::option"@, "Option"@, t[3].0@);
    assert(t[4].0@ =~= "::buffa::alloc::string"@ + "::"@ + "String"@);
    lemma_segment_of("::buffa::alloc::string"@, "String"@, t[4].0@);
    assert(t[5].0@ =~= "::buffa::alloc::vec"@ + "::"@ + "Vec"@);
    lemma_segment_of("::buffa::alloc::vec"@, "Vec"@, t[5].0@);
}

/// Facts about the fixed name lists.
proof fn lemma_runtime_table()
    ensures
        forall|i: int, j: int|
            0 <= i < 6 && 0 <= j < 6 && i != j ==> #[trigger] runtime_imports()[i].0@ != #[trigger] runtime_imports()[j].0@
                && runtime_imports()[i].1@ != runtime_imports()[j].1@,
        forall|i: int|
            #![trigger runtime_imports()[i]]
            0 <= i < 6 ==> last_sep(runtime_imports()[i].1@) is None && shortenable_spec(runtime_imports()[i].0@)
                && !is_bare_referenced(runtime_imports()[i].1@) && !is_path_keyword(runtime_imports()[i].1@),
        runtime_imports().len() == 6,
{
    reveal_strlit("::buffa::EnumValue");
    reveal_strlit("::buffa::__private::HashMap");
    reveal_strlit("::buffa::MessageField");
    reveal_strlit("::core::option::Option");
    reveal_strlit("::buffa::alloc::string::String");
    reveal_strlit("::buffa::alloc::vec::Vec");
    reveal_strlit("EnumValue");
    reveal_strlit("HashMap");
    reveal_strlit("MessageField");
    reveal_strlit("Option");
    reveal_strlit("String");
    reveal_strlit("Vec");
    reveal_strlit("::");
    reveal_strlit("self");
    reveal_strlit("super");
    reveal_strlit("Self");
    reveal_strlit("crate");
    let t = runtime_imports();
    assert(t[0].0@.len() == 18 && t[1].0@.len() == 27 && t[2].0@.len() == 21);
    assert(t[3].0@.len() == 22 && t[4].0@.len() == 30 && t[5].0@.len() == 24);
    assert(t[0].1@.len() == 9 && t[1].1@.len() == 7 && t[2].1@.len() == 12);
    assert(t[3].1@.len() == 6 && t[4].1@.len() == 6 && t[5].1@.len() == 3);
    assert(t[3].1@[0] != t[4].1@[0]);
    assert forall|i: int| 0 <= i < 6 implies #[trigger] shortenable_spec(t[i].0@) by {
        assert(t[i].0@.take(2) =~= "::"@);
    }
    assert forall|i: int| 0 <= i < 6 implies last_sep(#[trigger] t[i].1@) is None by {
        lemma_literal_no_sep(t[i].1@);
    }
    let b = root_bare_referenced();
    reveal_strlit("Box");
    reveal_strlit("Clone");
    reveal_strlit("Copy");
    reveal_strlit("Debug");
    reveal_strlit("Default");
    reveal_strlit("Eq");
    reveal_strlit("From");
    reveal_strlit("Hash");
    reveal_strlit("Into");
    reveal_strlit("None");
    reveal_strlit("PartialEq");
    reveal_strlit("Result");
    reveal_strlit("Send");
    reveal_strlit("Some");
    reveal_strlit("Sync");
    reveal_strlit("bool");
    reveal_strlit("f32");
    reveal_strlit("f64");
    reveal_strlit("i32");
    reveal_strlit("i64");
    reveal_strlit("serde");
    reveal_strlit("str");
    reveal_strlit("u8");
    reveal_strlit("u32");
    reveal_strlit("u64");
    assert forall|j: int| 0 <= j < 26 implies {
        let w = (#[trigger] b[j])@;
        w.len() > 0 && w.len() != 12 && (w.len() == 9 ==> w[0] != 'E') && (w.len() == 7 ==> w[0] != 'H')
            && (w.len() == 6 ==> w[0] != 'O' && w[0] != 'S') && (w.len() == 3 ==> w[0] != 'V')
    } by {}
    assert forall|i: int| 0 <= i < 6 implies !is_bare_referenced(#[trigger] t[i].1@) by {
        if is_bare_referenced(t[i].1@) {
            let j = choose|j: int| 0 <= j < 26 && t[i].1@ == (#[trigger] b[j])@;
            assert(b[j]@.len() > 0);
        }
    }
}

} // verus!

verus! {

/// `after` keeps every entry of `before`.
pub open spec fn keeps(before: Map<Seq<char>, Seq<char>>, after: Map<Seq<char>, Seq<char>>) -> bool {
    forall|q: Seq<char>| #[trigger] before.contains_key(q) ==> after.contains_key(q) && after[q] == before[q]
}

proof fn lemma_runtime_phase_sound(c: Set<Seq<char>>, o: Set<Seq<char>>, k: int)
    requires
        0 <= k <= 6,
    ensures
        assignment_sound(runtime_phase(c, o, k), c, o),
        forall|i: int|
            #![trigger runtime_imports()[i]]
            0 <= i < k && c.contains(runtime_imports()[i].0@) && !o.contains(runtime_imports()[i].1@)
                ==> runtime_phase(c, o, k).resolved.contains_key(runtime_imports()[i].0@),
    decreases k,
{
    lemma_runtime_table();
    lemma_runtime_segments();
    if k > 0 {
        lemma_runtime_phase_sound(c, o, k - 1);
        let st = runtime_phase(c, o, k - 1);
        let p = runtime_imports()[k - 1].0@;
        let s = runtime_imports()[k - 1].1@;
        if c.contains(p) && !o.contains(s) {
            let st2 = runtime_phase(c, o, k);
            assert(st2.resolved == st.resolved.insert(p, s));
            assert(st2.bindings == st.bindings.insert(s, p));
            assert(last_segment(p) == s);
            assert forall|b: Seq<char>| #[trigger] st2.bindings.contains_key(b) implies last_segment(st2.bindings[b]) == b by {
                if b != s {
                    assert(st.bindings.contains_key(b));
                }
            }
            assert forall|q: Seq<char>| #[trigger] st2.resolved.contains_key(q) implies short_shape(q, st2.resolved[q]) by {
                if q != p {
                    assert(st.resolved.contains_key(q));
                }
            }
            assert(last_sep(s) is None);
            if st.bindings.contains_key(s) {
                assert(st.bindings[s] == p);
                assert(st2.bindings =~= st.bindings);
            }
            assert forall|q: Seq<char>| #[trigger] st2.resolved.contains_key(q) implies c.contains(q)
                && shortenable_spec(q) && denotes(st2.bindings, st2.resolved[q], q) by {
                if q != p {
                    if !st.bindings.contains_key(s) {
                        lemma_denotes_grow(st.bindings, s, p, st.resolved[q], q);
                    }
                }
            }
            assert forall|b: Seq<char>| #[trigger] st2.bindings.contains_key(b) implies exists|q: Seq<char>| #[trigger]
                st2.resolved.contains_key(q) && head(st2.resolved[q]) == b by {
                if b == s {
                    assert(st2.resolved.contains_key(p) && head(st2.resolved[p]) == b);
                } else {
                    let q = choose|q: Seq<char>| #[trigger] st.resolved.contains_key(q) && head(st.resolved[q]) == b;
                    if q == p {
                        assert(st.resolved[q] == s);
                    }
                    assert(st2.resolved.contains_key(q) && head(st2.resolved[q]) == b);
                }
            }
            assert forall|i: int|
                #![trigger runtime_imports()[i]]
                0 <= i < 6 && st2.bindings.contains_key(runtime_imports()[i].1@) implies st2.bindings[runtime_imports()[i].1@]
                == runtime_imports()[i].0@ by {
                if i != k - 1 {
                    assert(runtime_imports()[i].1@ != s);
                }
            }
            assert forall|i: int|
                #![trigger runtime_imports()[i]]
                0 <= i < 6 && st2.resolved.contains_key(runtime_imports()[i].0@) implies st2.resolved[runtime_imports()[i].0@]
                == runtime_imports()[i].1@ by {
                if i != k - 1 {
                    assert(runtime_imports()[i].0@ != p);
                }
            }
        }
    }
}

proof fn lemma_path_step_sound(st: ImportsState, path: Seq<char>, c: Set<Seq<char>>, o: Set<Seq<char>>)
    requires
        assignment_sound(st, c, o),
        c.contains(path),
    ensures
        assignment_sound(path_step(st, path, o), c, o),
        keeps(st.resolved, path_step(st, path, o).resolved),
{
    lemma_runtime_table();
    let st2 = path_step(st, path, o);
    if st.resolved.contains_key(path) || is_runtime_path(path) || !shortenable_spec(path) {
        return;
    }
    if last_sep(path) is None {
        return;
    }
    let j = last_sep(path)->0;
    lemma_leaf(path, j);
    let parent = path.take(j);
    let leaf = path.skip(j + 2);
    lemma_no_sep(leaf);
    assert(forall|i: int| 0 <= i < 6 ==> path != (#[trigger] runtime_imports()[i]).0@);
    if proto_claimable(leaf, o) && (!st.bindings.contains_key(leaf) || st.bindings[leaf] == path) {
        // Rung 1: the bare leaf name.
        assert(st2.resolved == st.resolved.insert(path, leaf));
        assert(forall|i: int| 0 <= i < 6 ==> leaf != (#[trigger] runtime_imports()[i]).1@);
        if st.bindings.contains_key(leaf) {
            assert(st2.bindings == st.bindings);
        } else {
            assert(st2.bindings == st.bindings.insert(leaf, path));
        }
        assert(denotes(st2.bindings, leaf, path));
        assert forall|q: Seq<char>| #[trigger] st2.resolved.contains_key(q) implies c.contains(q)
            && shortenable_spec(q) && denotes(st2.bindings, st2.resolved[q], q) by {
            if q != path && !st.bindings.contains_key(leaf) {
                lemma_denotes_grow(st.bindings, leaf, path, st.resolved[q], q);
            }
        }
        assert forall|b: Seq<char>| #[trigger] st2.bindings.contains_key(b) implies exists|q: Seq<char>| #[trigger]
            st2.resolved.contains_key(q) && head(st2.resolved[q]) == b by {
            if b == leaf {
                assert(st2.resolved.contains_key(path) && head(st2.resolved[path]) == b);
            } else {
                let q = choose|q: Seq<char>| #[trigger] st.resolved.contains_key(q) && head(st.resolved[q]) == b;
                assert(st2.resolved.contains_key(q) && head(st2.resolved[q]) == b);
            }
        }
    } else {
        let pl = last_segment(parent);
        let short = pl + "::"@ + leaf;
        if proto_claimable(pl, o) && (!st.bindings.contains_key(pl) || st.bindings[pl] == parent) {
            // Rung 2: the parent module plus the leaf.
            assert(st2.resolved == st.resolved.insert(path, short));
            assert(forall|i: int| 0 <= i < 6 ==> pl != (#[trigger] runtime_imports()[i]).1@);
            if st.bindings.contains_key(pl) {
                assert(st2.bindings == st.bindings);
            } else {
                assert(st2.bindings == st.bindings.insert(pl, parent));
            }
            lemma_rung_two_short(pl, leaf);
            assert(parent + ("::"@ + leaf) =~= path);
            assert(st2.bindings[pl] == parent);
            assert(denotes(st2.bindings, short, path));
            assert(head(short) == pl);
            assert forall|q: Seq<char>| #[trigger] st2.resolved.contains_key(q) implies c.contains(q)
                && shortenable_spec(q) && denotes(st2.bindings, st2.resolved[q], q) by {
                if q != path && !st.bindings.contains_key(pl) {
                    lemma_denotes_grow(st.bindings, pl, parent, st.resolved[q], q);
                }
            }
            assert forall|b: Seq<char>| #[trigger] st2.bindings.contains_key(b) implies exists|q: Seq<char>| #[trigger]
                st2.resolved.contains_key(q) && head(st2.resolved[q]) == b by {
                if b == pl {
                    assert(st2.resolved.contains_key(path) && head(st2.resolved[path]) == b);
                } else {
                    let q = choose|q: Seq<char>| #[trigger] st.resolved.contains_key(q) && head(st.resolved[q]) == b;
                    assert(st2.resolved.contains_key(q) && head(st2.resolved[q]) == b);
                }
            }
        }
    }
}

proof fn lemma_path_fold_sound(st: ImportsState, paths: Seq<Seq<char>>, n: int, o: Set<Seq<char>>)
    requires
        assignment_sound(st, paths.to_set(), o),
    ensures
        assignment_sound(path_fold(st, paths, n, o), paths.to_set(), o),
        keeps(st.resolved, path_fold(st, paths, n, o).resolved),
    decreases n,
{
    if 0 < n <= paths.len() {
        lemma_path_fold_sound(st, paths, n - 1, o);
        let mid = path_fold(st, paths, n - 1, o);
        assert(paths.to_set().contains(paths[n - 1]));
        lemma_path_step_sound(mid, paths[n - 1], paths.to_set(), o);
    }
}

/// The package-root assignment is sound.
///
/// Every short form it hands out reads back, through the `use` bindings, as
/// the path it stands for; only collected paths rooted at `::`, `crate::`
/// or `super::` are shortened; no bound name is occupied at the package
/// root, referenced bare by root emissions, or a path keyword; a runtime
/// type's short name is bound to that runtime type alone, and a runtime
/// path is shortened to its own short name or not at all; every `use`
/// binding is read by some shortened path, so none goes unused; each `use`
/// target's last segment is the name it binds; each short form is the
/// path's last segment, or its parent module's last segment, `::` and the
/// path's last segment; and the first segment of a proto type's short form
/// is never empty, occupied, a runtime type's short name, a name root
/// emissions reference bare, or a path keyword.
pub proof fn law_assignment_sound(paths: Seq<Seq<char>>, occupied: Set<Seq<char>>)
    ensures
        assignment_sound(assign_spec(paths, occupied), paths.to_set(), occupied),
{
    lemma_runtime_phase_sound(paths.to_set(), occupied, 6);
    lemma_path_fold_sound(runtime_phase(paths.to_set(), occupied, 6), paths, paths.len() as int, occupied);
}

/// Runtime types claim their short names first: a requested runtime path
/// whose short name the package does not occupy always resolves to it,
/// whatever proto types were requested beside it.
pub proof fn law_runtime_claims_first(paths: Seq<Seq<char>>, occupied: Set<Seq<char>>, i: int)
    requires
        0 <= i < 6,
        paths.contains(runtime_imports()[i].0@),
        !occupied.contains(runtime_imports()[i].1@),
    ensures
        assign_spec(paths, occupied).resolved.contains_key(runtime_imports()[i].0@),
        assign_spec(paths, occupied).resolved[runtime_imports()[i].0@] == runtime_imports()[i].1@,
{
    let c = paths.to_set();
    lemma_runtime_phase_sound(c, occupied, 6);
    let st = runtime_phase(c, occupied, 6);
    assert(c.contains(runtime_imports()[i].0@));
    assert(st.resolved.contains_key(runtime_imports()[i].0@));
    lemma_path_fold_sound(st, paths, paths.len() as int, occupied);
}

/// A runtime path is shortened exactly when it was requested and its short
/// name is not occupied at the package root, and then to that short name.
pub proof fn law_runtime_pair(paths: Seq<Seq<char>>, occupied: Set<Seq<char>>, i: int)
    requires
        0 <= i < 6,
    ensures
        ({
            let st = assign_spec(paths, occupied);
            let (p, s) = runtime_imports()[i];
            &&& st.resolved.contains_key(p@) <==> (paths.contains(p@) && !occupied.contains(s@))
            &&& st.resolved.contains_key(p@) ==> st.resolved[p@] == s@
        }),
{
    let st = assign_spec(paths, occupied);
    let p = runtime_imports()[i].0@;
    let s = runtime_imports()[i].1@;
    law_assignment_sound(paths, occupied);
    if paths.contains(p) && !occupied.contains(s) {
        law_runtime_claims_first(paths, occupied, i);
    }
    if st.resolved.contains_key(p) {
        assert(st.resolved[p] == s);
        assert(paths.to_set().contains(p));
        lemma_runtime_table();
        assert(last_sep(runtime_imports()[i].1@) is None);
        assert(st.bindings.contains_key(s));
    }
}

/// The assignment depends only on the set of requested paths, not on the
/// order they were requested in.
pub proof fn law_assign_order_independent(a: Seq<Seq<char>>, b: Seq<Seq<char>>, occupied: Set<Seq<char>>)
    requires
        strictly_sorted(a),
        strictly_sorted(b),
        a.to_set() == b.to_set(),
    ensures
        assign_spec(a, occupied) == assign_spec(b, occupied),
{
    crate::name_set::lemma_sorted_unique(a, b);
}

} // verus!

verus! {

// ── Emitting runtime paths ──────────────────────────────────────────────────

/// The text emitted for the qualified `path` at module depth `nesting`: at
/// the package root with package-root imports active (`imports` present),
/// the short form they assigned, if any; otherwise `path` itself.
pub open spec fn path_at_spec(imports: Option<ImportsState>, path: Seq<char>, nesting: nat) -> Seq<char> {
    match imports {
        Some(st) => if nesting == 0 && st.resolved.contains_key(path) {
            st.resolved[path]
        } else {
            path
        },
        None => path,
    }
}

/// The state of the package-root imports, if they are active.
pub open spec fn imports_state(imports: Option<&RootImports>) -> Option<ImportsState> {
    match imports {
        Some(ri) => Some(ri.state()),
        None => None,
    }
}

impl ImportResolver {
    /// The text emitted for the qualified `path` at module depth `nesting`.
    pub fn path_at(&self, imports: Option<&RootImports>, path: &str, nesting: usize) -> (r: String)
        ensures
            r@ == path_at_spec(imports_state(imports), path@, nesting as nat),
    {
        if nesting == 0 {
            if let Some(ri) = imports {
                if let Some(short) = ri.resolve(path) {
                    return String::from_str(short);
                }
            }
        }
        String::from_str(path)
    }

    /// `Option`, as emitted at depth `nesting`.
    pub fn option_at(&self, imports: Option<&RootImports>, nesting: usize) -> (r: String)
        ensures
            r@ == path_at_spec(imports_state(imports), "::core::option::Option"@, nesting as nat),
    {
        self.path_at(imports, "::core::option::Option", nesting)
    }

    /// `String`, as emitted at depth `nesting`.
    pub fn string_at(&self, imports: Option<&RootImports>, nesting: usize) -> (r: String)
        ensures
            r@ == path_at_spec(imports_state(imports), "::buffa::alloc::string::String"@, nesting as nat),
    {
        self.path_at(imports, "::buffa::alloc::string::String", nesting)
    }

    /// `Vec`, as emitted at depth `nesting`.
    pub fn vec_at(&self, imports: Option<&RootImports>, nesting: usize) -> (r: String)
        ensures
            r@ == path_at_spec(imports_state(imports), "::buffa::alloc::vec::Vec"@, nesting as nat),
    {
        self.path_at(imports, "::buffa::alloc::vec::Vec", nesting)
    }

    /// `MessageField`, as emitted at depth `nesting`.
    pub fn message_field_at(&self, imports: Option<&RootImports>, nesting: usize) -> (r: String)
        ensures
            r@ == path_at_spec(imports_state(imports), "::buffa::MessageField"@, nesting as nat),
    {
        self.path_at(imports, "::buffa::MessageField", nesting)
    }

    /// `EnumValue`, as emitted at depth `nesting`.
    pub fn enum_value_at(&self, imports: Option<&RootImports>, nesting: usize) -> (r: String)
        ensures
            r@ == path_at_spec(imports_state(imports), "::buffa::EnumValue"@, nesting as nat),
    {
        self.path_at(imports, "::buffa::EnumValue", nesting)
    }

    /// `HashMap`, as emitted at depth `nesting`.
    pub fn hashmap_at(&self, imports: Option<&RootImports>, nesting: usize) -> (r: String)
        ensures
            r@ == path_at_spec(imports_state(imports), "::buffa::__private::HashMap"@, nesting as nat),
    {
        self.path_at(imports, "::buffa::__private::HashMap", nesting)
    }
}

} // verus!
