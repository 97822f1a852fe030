//! Path-scoped editions feature overrides via descriptor feature injection.
//!
//! Each [`FeatureOverride`] writes its feature slot into the descriptors its
//! path matches, and everything downstream resolves features from the
//! rewritten set. For [`FeatureOverride::EnumType`], matching enums receive
//! `features.enum_type = OPEN` on their own descriptor, and matching fields
//! receive a field-level override: the carrier for field-scoped rules and
//! for enums declared outside the compilation set.

use vstd::prelude::*;
use crate::descriptor::{
    DescriptorProto, EnumDescriptorProto, EnumModel, EnumOptions, EnumType, FeatureSet,
    FieldDescriptorProto, FieldModel, FieldOptions, FileDescriptorProto, FileModel, Label,
    MessageModel, Type,
};
use crate::name_set::NameSet;
use crate::text::{chars_of, trim, trim_range};

verus! {

// ── Rule matching ───────────────────────────────────────────────────────────

/// `s` without its trailing dots.
pub open spec fn trim_end_dots(s: Seq<char>) -> Seq<char>
    decreases s.len(),
{
    if s.len() > 0 && s.last() == '.' {
        trim_end_dots(s.drop_last())
    } else {
        s
    }
}

/// `prefix` names `fqn` or one of its ancestors: equal, or a prefix ending
/// on a `.` segment boundary.
pub open spec fn matches_proto_prefix(prefix: Seq<char>, fqn: Seq<char>) -> bool {
    fqn == prefix || (prefix.len() < fqn.len() && fqn.take(prefix.len() as int) == prefix && fqn[prefix.len() as int] == '.')
}

/// Whether one configured path matches a dotted FQN: `"."` matches
/// everything, surrounding whitespace is ignored, a leading dot is
/// optional, trailing dots are ignored, and prefixes only match on proto
/// segment boundaries.
pub open spec fn rule_matches_one_spec(rule: Seq<char>, fqn: Seq<char>) -> bool {
    let r = trim(rule);
    if r == seq!['.'] {
        true
    } else {
        let p = trim_end_dots(r);
        if p.len() == 0 {
            false
        } else if p[0] == '.' {
            matches_proto_prefix(p, fqn)
        } else if fqn.len() > 0 && fqn[0] == '.' {
            matches_proto_prefix(p, fqn.skip(1))
        } else {
            matches_proto_prefix(p, fqn)
        }
    }
}

/// Some rule matches `fqn`.
pub open spec fn any_rule(rules: Seq<Seq<char>>, fqn: Seq<char>) -> bool {
    exists|i: int| 0 <= i < rules.len() && rule_matches_one_spec(#[trigger] rules[i], fqn)
}

/// `rule` matches some path in `probed`.
pub open spec fn hit(rule: Seq<char>, probed: Set<Seq<char>>) -> bool {
    exists|f: Seq<char>| #[trigger] probed.contains(f) && rule_matches_one_spec(rule, f)
}

/// `matched` after every path in `probed` was tried against every rule.
pub open spec fn mark_all(matched: Seq<bool>, rules: Seq<Seq<char>>, probed: Set<Seq<char>>) -> Seq<bool> {
    Seq::new(matched.len(), |i: int| matched[i] || (i < rules.len() && hit(rules[i], probed)))
}

pub proof fn lemma_mark_all_union(m: Seq<bool>, rules: Seq<Seq<char>>, a: Set<Seq<char>>, b: Set<Seq<char>>)
    ensures
        mark_all(mark_all(m, rules, a), rules, b) == mark_all(m, rules, a.union(b)),
{
    assert forall|i: int| 0 <= i < m.len() && i < rules.len() implies hit(rules[i], a.union(b)) == (hit(rules[i], a) || hit(
        rules[i],
        b,
    )) by {
        if hit(rules[i], a.union(b)) {
            let f = choose|f: Seq<char>| #[trigger] a.union(b).contains(f) && rule_matches_one_spec(rules[i], f);
            if a.contains(f) {
                assert(hit(rules[i], a));
            } else {
                assert(hit(rules[i], b));
            }
        }
        if hit(rules[i], a) {
            let f = choose|f: Seq<char>| #[trigger] a.contains(f) && rule_matches_one_spec(rules[i], f);
            assert(a.union(b).contains(f));
        }
        if hit(rules[i], b) {
            let f = choose|f: Seq<char>| #[trigger] b.contains(f) && rule_matches_one_spec(rules[i], f);
            assert(a.union(b).contains(f));
        }
    }
    assert(mark_all(mark_all(m, rules, a), rules, b) =~= mark_all(m, rules, a.union(b)));
}

pub proof fn lemma_mark_all_empty(m: Seq<bool>, rules: Seq<Seq<char>>)
    ensures
        mark_all(m, rules, Set::empty()) == m,
{
    assert(mark_all(m, rules, Set::empty()) =~= m);
}

/// `p[a..e]` names `f[off..]` or one of its ancestors.
fn matches_proto_prefix_at(p: &[char], a: usize, e: usize, f: &[char], off: usize) -> (r: bool)
    requires
        a <= e <= p@.len(),
        off <= f@.len(),
    ensures
        r == matches_proto_prefix(p@.subrange(a as int, e as int), f@.skip(off as int)),
{
    let ghost pre = p@.subrange(a as int, e as int);
    let ghost g = f@.skip(off as int);
    let flen = f.len();
    let n = e - a;
    let m = flen - off;
    assert(pre.len() == n && g.len() == m);
    if n > m {
        assert(g.len() != pre.len());
        return false;
    }
    let mut i: usize = 0;
    while i < n
        invariant
            n == pre.len(),
            m == g.len(),
            n <= m,
            i <= n,
            a + n == e,
            e <= p@.len(),
            off + m == flen,
            flen == f@.len(),
            pre == p@.subrange(a as int, e as int),
            g == f@.skip(off as int),
            forall|k: int| 0 <= k < i ==> g[k] == pre[k],
        decreases n - i,
    {
        let pi = a + i;
        let fi = off + i;
        assert(pre[i as int] == p@[pi as int] && g[i as int] == f@[fi as int]);
        if p[pi] != f[fi] {
            assert(g.take(n as int)[i as int] != pre[i as int]);
            return false;
        }
        i = i + 1;
    }
    assert(g.take(n as int) =~= pre);
    if n == m {
        assert(g =~= pre);
        true
    } else {
        f[off + n] == '.'
    }
}

fn rule_matches_chars(rule: &[char], fqn: &[char]) -> (r: bool)
    ensures
        r == rule_matches_one_spec(rule@, fqn@),
{
    let (a, b) = trim_range(rule, 0, rule.len());
    assert(rule@.subrange(0, rule@.len() as int) =~= rule@);
    let ghost t = trim(rule@);
    assert(t.len() == b - a);
    if b - a == 1 && rule[a] == '.' {
        assert(t =~= seq!['.']);
        return true;
    }
    if b - a == 1 {
        assert(t[0] == rule@[a as int]);
        assert(t[0] != seq!['.'][0]);
    }
    assert(t != seq!['.']);
    let mut e = b;
    while e > a && rule[e - 1] == '.'
        invariant
            a <= e <= b <= rule@.len(),
            t == rule@.subrange(a as int, b as int),
            trim_end_dots(t) == trim_end_dots(rule@.subrange(a as int, e as int)),
        decreases e,
    {
        assert(rule@.subrange(a as int, e as int).drop_last() =~= rule@.subrange(a as int, e - 1));
        e = e - 1;
    }
    let ghost p = rule@.subrange(a as int, e as int);
    assert(trim_end_dots(p) == p);
    if e == a {
        return false;
    }
    if rule[a] == '.' {
        assert(fqn@.skip(0) =~= fqn@);
        matches_proto_prefix_at(rule, a, e, fqn, 0)
    } else if fqn.len() > 0 && fqn[0] == '.' {
        matches_proto_prefix_at(rule, a, e, fqn, 1)
    } else {
        assert(fqn@.skip(0) =~= fqn@);
        matches_proto_prefix_at(rule, a, e, fqn, 0)
    }
}

/// Whether one configured path matches the dotted FQN `fqn_dotted`.
pub fn rule_matches_one(rule: &str, fqn_dotted: &str) -> (r: bool)
    ensures
        r == rule_matches_one_spec(rule@, fqn_dotted@),
{
    let rc = chars_of(rule);
    let fc = chars_of(fqn_dotted);
    rule_matches_chars(rc.as_slice(), fc.as_slice())
}

/// Does any rule match `fqn_dotted`? Marks every matching rule in
/// `matched` (no short-circuit), so inert rules can be reported; `matched`
/// must have a slot for each rule that matches.
pub fn rule_matches(rules: &[String], fqn_dotted: &str, matched: &mut Vec<bool>) -> (r: bool)
    requires
        forall|i: int|
            old(matched)@.len() <= i < rules@.len() ==> !rule_matches_one_spec(#[trigger] rules@[i]@, fqn_dotted@),
    ensures
        r == any_rule(rule_views(rules@), fqn_dotted@),
        final(matched)@ == mark_all(old(matched)@, rule_views(rules@), set![fqn_dotted@]),
{
    let fc = chars_of(fqn_dotted);
    rule_matches_chars_marking(rules, fc.as_slice(), matched)
}

/// The views of the configured paths.
pub open spec fn rule_views(rules: Seq<String>) -> Seq<Seq<char>> {
    Seq::new(rules.len(), |i: int| rules[i]@)
}

fn rule_matches_chars_marking(rules: &[String], fqn: &[char], matched: &mut Vec<bool>) -> (r: bool)
    requires
        forall|i: int| old(matched)@.len() <= i < rules@.len() ==> !rule_matches_one_spec(#[trigger] rules@[i]@, fqn@),
    ensures
        r == any_rule(rule_views(rules@), fqn@),
        final(matched)@ == mark_all(old(matched)@, rule_views(rules@), set![fqn@]),
{
    let ghost rv = rule_views(rules@);
    let ghost m0 = matched@;
    let ghost one = set![fqn@];
    let mut any = false;
    let mut i: usize = 0;
    while i < rules.len()
        invariant
            rv == rule_views(rules@),
            one == set![fqn@],
            forall|k: int| m0.len() <= k < rules@.len() ==> !rule_matches_one_spec(#[trigger] rules@[k]@, fqn@),
            matched@.len() == m0.len(),
            i <= rules@.len(),
            forall|k: int|
                0 <= k < m0.len() ==> #[trigger] matched@[k] == (m0[k] || (k < i && k < rules@.len() && hit(rv[k], one))),
            any == exists|k: int| 0 <= k < i && rule_matches_one_spec(#[trigger] rv[k], fqn@),
        decreases rules@.len() - i,
    {
        let rc = chars_of(rules[i].as_str());
        let hit_i = rule_matches_chars(rc.as_slice(), fqn);
        assert(rc@ == rv[i as int]);
        proof {
            if rule_matches_one_spec(rv[i as int], fqn@) {
                assert(one.contains(fqn@));
            }
            if hit(rv[i as int], one) {
                let f = choose|f: Seq<char>| #[trigger] one.contains(f) && rule_matches_one_spec(rv[i as int], f);
                assert(f == fqn@);
            }
        }
        assert(hit_i == hit(rv[i as int], one));
        if hit_i {
            assert(i < matched.len());
            matched.set(i, true);
            any = true;
        }
        i = i + 1;
    }
    assert(matched@ =~= mark_all(m0, rv, one));
    any
}

// ── Laws of rule matching ───────────────────────────────────────────────────

/// The rule `"."` matches every path.
pub proof fn law_dot_matches_everything(fqn: Seq<char>)
    ensures
        rule_matches_one_spec(seq!['.'], fqn),
{
    assert(trim(seq!['.']) =~= seq!['.']) by {
        assert(!crate::text::is_white_space('.'));
        crate::text::lemma_leading_white_bound(seq!['.']);
    }
}

} // verus!

verus! {

proof fn lemma_trim_end_dots_prefix(s: Seq<char>)
    ensures
        trim_end_dots(s).len() <= s.len(),
        trim_end_dots(s) == s.take(trim_end_dots(s).len() as int),
        trim_end_dots(s).len() > 0 ==> trim_end_dots(s).last() != '.',
    decreases s.len(),
{
    if s.len() > 0 && s.last() == '.' {
        lemma_trim_end_dots_prefix(s.drop_last());
        assert(s.drop_last().take(trim_end_dots(s).len() as int) =~= s.take(trim_end_dots(s).len() as int));
    } else {
        assert(s.take(s.len() as int) =~= s);
    }
}

proof fn lemma_trim_end_dots_cons(c: char, s: Seq<char>)
    requires
        trim_end_dots(s).len() > 0,
    ensures
        trim_end_dots(seq![c] + s) == seq![c] + trim_end_dots(s),
    decreases s.len(),
{
    if s.len() > 0 && s.last() == '.' {
        assert((seq![c] + s).drop_last() =~= seq![c] + s.drop_last());
        lemma_trim_end_dots_cons(c, s.drop_last());
    }
}

/// Trailing dots on a rule are ignored.
pub proof fn law_trailing_dots_ignored(rule: Seq<char>, fqn: Seq<char>)
    requires
        trim(rule) == rule,
        trim_end_dots(rule).len() > 0,
    ensures
        rule_matches_one_spec(rule + seq!['.'], fqn) == rule_matches_one_spec(rule, fqn),
{
    let r2 = rule + seq!['.'];
    crate::text::lemma_trim_fixed(rule);
    crate::text::lemma_trim_fixed(r2);
    assert(!crate::text::is_white_space('.'));
    assert(r2[0] == rule[0]);
    assert(trim(r2) == r2);
    assert(r2.len() >= 2);
    assert(r2 != seq!['.']);
    if rule =~= seq!['.'] {
        assert(trim_end_dots(rule) == trim_end_dots(rule.drop_last()));
        assert(rule.drop_last().len() == 0);
    }
    assert(r2.drop_last() =~= rule);
    assert(trim_end_dots(r2) == trim_end_dots(rule));
}

/// A leading dot on a rule is optional.
pub proof fn law_leading_dot_optional(rule: Seq<char>, fqn: Seq<char>)
    requires
        trim(rule) == rule,
        trim_end_dots(rule).len() > 0,
        rule[0] != '.',
        fqn.len() > 0,
        fqn[0] == '.',
    ensures
        rule_matches_one_spec(seq!['.'] + rule, fqn) == rule_matches_one_spec(rule, fqn),
{
    let r2 = seq!['.'] + rule;
    crate::text::lemma_trim_fixed(rule);
    crate::text::lemma_trim_fixed(r2);
    assert(!crate::text::is_white_space('.'));
    assert(r2.last() == rule.last());
    assert(trim(r2) == r2);
    assert(r2 != seq!['.']);
    assert(rule != seq!['.']);
    lemma_trim_end_dots_prefix(rule);
    lemma_trim_end_dots_cons('.', rule);
    let p = trim_end_dots(rule);
    let p2 = seq!['.'] + p;
    assert(p[0] == rule[0]);
    assert(trim_end_dots(r2) == p2);
    let g = fqn.skip(1);
    assert(fqn =~= seq!['.'] + g);
    if matches_proto_prefix(p, g) {
        if g != p {
            assert(fqn.take(p2.len() as int) =~= seq!['.'] + g.take(p.len() as int));
            assert(fqn[p2.len() as int] == g[p.len() as int]);
            assert(matches_proto_prefix(p2, fqn));
        } else {
            assert(fqn =~= p2);
        }
    }
    if matches_proto_prefix(p2, fqn) {
        if fqn != p2 {
            assert(g.take(p.len() as int) =~= fqn.take(p2.len() as int).skip(1));
            assert(p2.skip(1) =~= p);
            assert(g.take(p.len() as int) == p);
            assert(fqn[p2.len() as int] == g[p.len() as int]);
            assert(matches_proto_prefix(p, g));
        } else {
            assert(g =~= p);
        }
    }
    assert(rule_matches_one_spec(rule, fqn) == matches_proto_prefix(p, g));
    assert(rule_matches_one_spec(r2, fqn) == matches_proto_prefix(p2, fqn));
}

/// A rule matches the path it names and every path below it, and never a
/// path that merely extends its last segment.
pub proof fn law_prefix_respects_segments(rule: Seq<char>, rest: Seq<char>)
    requires
        trim(rule) == rule,
        rule.len() > 0,
        rule[0] == '.',
        rule.last() != '.',
        rest.len() > 0,
    ensures
        rule_matches_one_spec(rule, rule),
        rule_matches_one_spec(rule, rule + seq!['.'] + rest),
        rest[0] != '.' ==> !rule_matches_one_spec(rule, rule + rest),
{
    assert(rule != seq!['.']);
    assert(trim_end_dots(rule) == rule);
    let d = rule + seq!['.'] + rest;
    assert(d.take(rule.len() as int) =~= rule);
    assert(d[rule.len() as int] == '.');
    let e = rule + rest;
    assert(e.len() > rule.len());
    assert(e != rule);
    assert(e[rule.len() as int] == rest[0]);
}

} // verus!

verus! {

// ── The override kinds ──────────────────────────────────────────────────────

/// How an `enum_type` override sets the feature.
#[derive(Clone, Copy, Debug, PartialEq, Eq, Structural)]
pub enum EnumTypeOverride {
    /// Treat the matched enums as open.
    Open,
}

/// A path-scoped editions feature override.
#[derive(Clone, Copy, Debug, PartialEq, Eq, Structural)]
pub enum FeatureOverride {
    /// Override `features.enum_type`.
    EnumType(EnumTypeOverride),
}

/// The result of applying feature overrides: the rewritten descriptor set,
/// plus the rules that matched nothing (a silently inert rule means the
/// affected paths keep the semantics the user was opting out of).
pub struct AppliedFeatureOverrides {
    pub files: Vec<FileDescriptorProto>,
    /// `(path, override)` pairs that matched nothing, in configured order.
    pub unmatched: Vec<(String, FeatureOverride)>,
}

// ── The walk, on models ─────────────────────────────────────────────────────

/// `".pkg"` → `".pkg."`; empty or absent package → `"."`.
pub open spec fn package_prefix_spec(package: Option<Seq<char>>) -> Seq<char> {
    match package {
        Some(p) => if p.len() > 0 {
            seq!['.'] + p + seq!['.']
        } else {
            seq!['.']
        },
        None => seq!['.'],
    }
}

/// Enum options after `enum_type = OPEN` was written into them.
pub open spec fn open_enum_options() -> Option<EnumOptions> {
    Some(EnumOptions { features: Some(FeatureSet { enum_type: Some(EnumType::OPEN) }) })
}

/// Field options after `enum_type = OPEN` was written into them.
pub open spec fn open_field_options() -> Option<FieldOptions> {
    Some(FieldOptions { features: Some(FeatureSet { enum_type: Some(EnumType::OPEN) }) })
}

/// The FQNs of the first `n` named enums of `es` under `prefix`.
pub open spec fn enum_fqns(prefix: Seq<char>, es: Seq<EnumModel>, n: int) -> Set<Seq<char>>
    decreases n,
{
    if n <= 0 || n > es.len() {
        Set::empty()
    } else {
        let rest = enum_fqns(prefix, es, n - 1);
        match es[n - 1].name {
            Some(name) => rest.insert(prefix + name),
            None => rest,
        }
    }
}

/// The FQNs of the enums declared in a message, nested messages included;
/// nothing below an unnamed message.
pub open spec fn message_enum_fqns(prefix: Seq<char>, m: MessageModel) -> Set<Seq<char>>
    decreases m, 0int,
{
    match m.name {
        None => Set::empty(),
        Some(name) => {
            let cp = prefix + name + seq!['.'];
            enum_fqns(cp, m.enums, m.enums.len() as int).union(nested_enum_fqns(cp, m.nested, m.nested.len() as int))
        },
    }
}

/// [`message_enum_fqns`] over the first `n` messages of `ms`.
pub open spec fn nested_enum_fqns(prefix: Seq<char>, ms: Seq<MessageModel>, n: int) -> Set<Seq<char>>
    decreases ms, n,
{
    if n <= 0 || n > ms.len() {
        Set::empty()
    } else {
        nested_enum_fqns(prefix, ms, n - 1).union(message_enum_fqns(prefix, ms[n - 1]))
    }
}

/// The enums a file declares, by dotted FQN.
pub open spec fn file_enum_fqns(f: FileModel) -> Set<Seq<char>> {
    let p = package_prefix_spec(f.package);
    enum_fqns(p, f.enums, f.enums.len() as int).union(nested_enum_fqns(p, f.messages, f.messages.len() as int))
}

/// The enums the first `n` files declare.
pub open spec fn local_enums_spec(fs: Seq<FileModel>, n: int) -> Set<Seq<char>>
    decreases n,
{
    if n <= 0 || n > fs.len() {
        Set::empty()
    } else {
        local_enums_spec(fs, n - 1).union(file_enum_fqns(fs[n - 1]))
    }
}

/// An enum after the walk: opened when a rule names it.
pub open spec fn enum_out(e: EnumModel, prefix: Seq<char>, rules: Seq<Seq<char>>) -> EnumModel {
    match e.name {
        Some(n) => if any_rule(rules, prefix + n) {
            EnumModel { name: e.name, values: e.values, options: open_enum_options() }
        } else {
            e
        },
        None => e,
    }
}

/// The paths the walk tries against the rules for an enum.
pub open spec fn enum_probes(e: EnumModel, prefix: Seq<char>) -> Set<Seq<char>> {
    match e.name {
        Some(n) => set![prefix + n],
        None => Set::empty(),
    }
}

/// An enum-typed field with a name and a type reference.
pub open spec fn named_enum_field(f: FieldModel) -> bool {
    f.ty == Some(Type::TYPE_ENUM) && f.name is Some && f.type_ref is Some
}

/// Whether the walk opens an enum-typed field of a message with prefix
/// `mp`: its own path matches, or its enum is declared outside the set and
/// matches, and its enum is not a local one that a rule opens anyway.
pub open spec fn field_opens(f: FieldModel, mp: Seq<char>, rules: Seq<Seq<char>>, local: Set<Seq<char>>) -> bool {
    named_enum_field(f) && {
        let field_match = any_rule(rules, mp + f.name->0);
        let tn = f.type_ref->0;
        let enum_is_local = local.contains(tn);
        let enum_type_match = any_rule(rules, tn);
        (field_match || (!enum_is_local && enum_type_match)) && !(enum_is_local && enum_type_match)
    }
}

/// `f` with `enum_type = OPEN` written into its options.
pub open spec fn opened_field(f: FieldModel) -> FieldModel {
    FieldModel {
        name: f.name,
        number: f.number,
        label: f.label,
        ty: f.ty,
        type_ref: f.type_ref,
        default_value: f.default_value,
        options: open_field_options(),
    }
}

pub open spec fn field_out(f: FieldModel, mp: Seq<char>, rules: Seq<Seq<char>>, local: Set<Seq<char>>) -> FieldModel {
    if field_opens(f, mp, rules, local) {
        opened_field(f)
    } else {
        f
    }
}

/// The paths the walk tries for a field: its own path and its enum's.
pub open spec fn field_probes(f: FieldModel, mp: Seq<char>) -> Set<Seq<char>> {
    if named_enum_field(f) {
        set![mp + f.name->0, f.type_ref->0]
    } else {
        Set::empty()
    }
}

/// `entry` is the synthetic map-entry message that map field `f` of the
/// message with prefix `mp` refers to.
pub open spec fn is_map_entry_for(entry: MessageModel, mp: Seq<char>, f: FieldModel) -> bool {
    &&& f.label == Some(Label::LABEL_REPEATED)
    &&& f.ty == Some(Type::TYPE_MESSAGE)
    &&& entry.name is Some
    &&& f.type_ref == Some(mp + entry.name->0)
    &&& entry.options matches Some(o) && o.map_entry == Some(true)
}

/// The first nested message at or after `j` that is `f`'s map entry.
pub open spec fn first_entry_from(ms: Seq<MessageModel>, mp: Seq<char>, f: FieldModel, j: int) -> Option<int>
    decreases ms.len() - j,
{
    if j < 0 || j >= ms.len() {
        None
    } else if is_map_entry_for(ms[j], mp, f) {
        Some(j)
    } else {
        first_entry_from(ms, mp, f, j + 1)
    }
}

/// Map entries whose map field a rule matches, as `(entry name, field
/// path)`, from the first `n` fields of `m`.
pub open spec fn entry_routes(m: MessageModel, mp: Seq<char>, rules: Seq<Seq<char>>, n: int) -> Seq<(Seq<char>, Seq<char>)>
    decreases n,
{
    if n <= 0 || n > m.fields.len() {
        seq![]
    } else {
        let rest = entry_routes(m, mp, rules, n - 1);
        let f = m.fields[n - 1];
        match (f.name, first_entry_from(m.nested, mp, f, 0)) {
            (Some(fname), Some(j)) => if any_rule(rules, mp + fname) && m.nested[j].name is Some {
                rest.push((m.nested[j].name->0, mp + fname))
            } else {
                rest
            },
            _ => rest,
        }
    }
}

/// The field path of the first route naming `name`, searching from `k`.
pub open spec fn route_from(routes: Seq<(Seq<char>, Seq<char>)>, name: Option<Seq<char>>, k: int) -> Option<Seq<char>>
    decreases routes.len() - k,
{
    if k < 0 || k >= routes.len() {
        None
    } else if name == Some(routes[k].0) {
        Some(routes[k].1)
    } else {
        route_from(routes, name, k + 1)
    }
}

/// Whether a field of a matched map entry is an enum value field whose
/// enum the enum-level pass does not already open.
pub open spec fn entry_field_opens(f: FieldModel, rules: Seq<Seq<char>>, local: Set<Seq<char>>) -> bool {
    f.number == Some(2i32) && f.ty == Some(Type::TYPE_ENUM) && !(f.type_ref matches Some(tn) && local.contains(tn)
        && any_rule(rules, tn))
}

/// The paths tried for a field of a matched map entry reached through
/// `route`.
pub open spec fn entry_field_probes(f: FieldModel, route: Seq<char>, local: Set<Seq<char>>) -> Set<Seq<char>> {
    if f.number == Some(2i32) && f.ty == Some(Type::TYPE_ENUM) {
        match f.type_ref {
            Some(tn) => if local.contains(tn) {
                set![tn, route]
            } else {
                set![route]
            },
            None => set![route],
        }
    } else {
        Set::empty()
    }
}

/// A map entry's fields after its map field's rule routed to it.
pub open spec fn entry_fix(m: MessageModel, route: Option<Seq<char>>, rules: Seq<Seq<char>>, local: Set<Seq<char>>) -> MessageModel {
    match route {
        None => m,
        Some(_) => MessageModel {
            name: m.name,
            fields: Seq::new(
                m.fields.len(),
                |k: int|
                    if entry_field_opens(m.fields[k], rules, local) {
                        opened_field(m.fields[k])
                    } else {
                        m.fields[k]
                    },
            ),
            nested: m.nested,
            enums: m.enums,
            oneofs: m.oneofs,
            options: m.options,
        },
    }
}

/// Union of the paths tried for the first `n` fields of a matched map
/// entry.
pub open spec fn entry_probes(fs: Seq<FieldModel>, route: Option<Seq<char>>, local: Set<Seq<char>>, n: int) -> Set<Seq<char>>
    decreases n,
{
    match route {
        None => Set::empty(),
        Some(r) => if n <= 0 || n > fs.len() {
            Set::empty()
        } else {
            entry_probes(fs, route, local, n - 1).union(entry_field_probes(fs[n - 1], r, local))
        },
    }
}

/// The child prefix of a named message.
pub open spec fn child_prefix(prefix: Seq<char>, name: Seq<char>) -> Seq<char> {
    prefix + name + seq!['.']
}

/// A message after the walk: its enum-typed fields, enums, map entries and
/// nested messages rewritten. An unnamed message is left as it is.
pub open spec fn message_out(m: MessageModel, prefix: Seq<char>, rules: Seq<Seq<char>>, local: Set<Seq<char>>) -> MessageModel
    decreases m,
{
    match m.name {
        None => m,
        Some(name) => {
            let mp = child_prefix(prefix, name);
            let routes = entry_routes(m, mp, rules, m.fields.len() as int);
            MessageModel {
                name: m.name,
                fields: Seq::new(m.fields.len(), |i: int| field_out(m.fields[i], mp, rules, local)),
                nested: Seq::new(
                    m.nested.len(),
                    |i: int|
                        if 0 <= i < m.nested.len() {
                            entry_fix(
                                message_out(m.nested[i], mp, rules, local),
                                route_from(routes, m.nested[i].name, 0),
                                rules,
                                local,
                            )
                        } else {
                            arbitrary()
                        },
                ),
                enums: Seq::new(m.enums.len(), |i: int| enum_out(m.enums[i], mp, rules)),
                oneofs: m.oneofs,
                options: m.options,
            }
        },
    }
}

/// Union of [`field_probes`] over the first `n` fields.
pub open spec fn fields_probes(fs: Seq<FieldModel>, mp: Seq<char>, n: int) -> Set<Seq<char>>
    decreases n,
{
    if n <= 0 || n > fs.len() {
        Set::empty()
    } else {
        fields_probes(fs, mp, n - 1).union(field_probes(fs[n - 1], mp))
    }
}

/// Union of [`enum_probes`] over the first `n` enums.
pub open spec fn enums_probes(es: Seq<EnumModel>, prefix: Seq<char>, n: int) -> Set<Seq<char>>
    decreases n,
{
    if n <= 0 || n > es.len() {
        Set::empty()
    } else {
        enums_probes(es, prefix, n - 1).union(enum_probes(es[n - 1], prefix))
    }
}

/// Every path the walk tries against the rules in a message and below it.
pub open spec fn message_probes(m: MessageModel, prefix: Seq<char>, rules: Seq<Seq<char>>, local: Set<Seq<char>>) -> Set<Seq<char>>
    decreases m, 0int,
{
    match m.name {
        None => Set::empty(),
        Some(name) => {
            let mp = child_prefix(prefix, name);
            let routes = entry_routes(m, mp, rules, m.fields.len() as int);
            fields_probes(m.fields, mp, m.fields.len() as int).union(
                enums_probes(m.enums, mp, m.enums.len() as int),
            ).union(nested_probes(m.nested, mp, rules, local, routes, m.nested.len() as int))
        },
    }
}

/// [`message_probes`] and the map-entry paths over the first `n` messages
/// of `ms`.
pub open spec fn nested_probes(
    ms: Seq<MessageModel>,
    mp: Seq<char>,
    rules: Seq<Seq<char>>,
    local: Set<Seq<char>>,
    routes: Seq<(Seq<char>, Seq<char>)>,
    n: int,
) -> Set<Seq<char>>
    decreases ms, n,
{
    if n <= 0 || n > ms.len() {
        Set::empty()
    } else {
        nested_probes(ms, mp, rules, local, routes, n - 1).union(message_probes(ms[n - 1], mp, rules, local)).union(
            entry_probes(ms[n - 1].fields, route_from(routes, ms[n - 1].name, 0), local, ms[n - 1].fields.len() as int),
        )
    }
}

/// A file after the walk.
pub open spec fn file_out(f: FileModel, rules: Seq<Seq<char>>, local: Set<Seq<char>>) -> FileModel {
    let p = package_prefix_spec(f.package);
    FileModel {
        name: f.name,
        package: f.package,
        syntax: f.syntax,
        messages: Seq::new(f.messages.len(), |i: int| message_out(f.messages[i], p, rules, local)),
        enums: Seq::new(f.enums.len(), |i: int| enum_out(f.enums[i], p, rules)),
        locations: f.locations,
    }
}

/// Every path the walk tries in a file.
pub open spec fn file_probes(f: FileModel, rules: Seq<Seq<char>>, local: Set<Seq<char>>) -> Set<Seq<char>> {
    let p = package_prefix_spec(f.package);
    enums_probes(f.enums, p, f.enums.len() as int).union(
        nested_probes(f.messages, p, rules, local, seq![], f.messages.len() as int),
    )
}

/// Every path the walk tries in the first `n` files.
pub open spec fn files_probes(fs: Seq<FileModel>, rules: Seq<Seq<char>>, local: Set<Seq<char>>, n: int) -> Set<Seq<char>>
    decreases n,
{
    if n <= 0 || n > fs.len() {
        Set::empty()
    } else {
        files_probes(fs, rules, local, n - 1).union(file_probes(fs[n - 1], rules, local))
    }
}

} // verus!

verus! {

// ── The walk ────────────────────────────────────────────────────────────────

/// `prefix` followed by `name`.
fn join_chars(prefix: &Vec<char>, name: &String) -> (r: Vec<char>)
    ensures
        r@ == prefix@ + name@,
{
    let mut r = prefix.clone();
    assert(r@ == prefix@);
    let n = chars_of(name.as_str());
    crate::text::extend_slice(&mut r, n.as_slice(), 0, n.len());
    assert(n@.subrange(0, n@.len() as int) =~= n@);
    r
}

/// `prefix + name + "."`.
fn child_prefix_exec(prefix: &Vec<char>, name: &String) -> (r: Vec<char>)
    ensures
        r@ == child_prefix(prefix@, name@),
{
    let mut r = join_chars(prefix, name);
    r.push('.');
    r
}

/// Some rule matches `fqn`; nothing is marked.
fn any_rule_exec(rules: &[String], fqn: &[char]) -> (r: bool)
    ensures
        r == any_rule(rule_views(rules@), fqn@),
{
    let ghost rv = rule_views(rules@);
    let mut i: usize = 0;
    while i < rules.len()
        invariant
            rv == rule_views(rules@),
            i <= rules@.len(),
            forall|k: int| 0 <= k < i ==> !rule_matches_one_spec(#[trigger] rv[k], fqn@),
        decreases rules@.len() - i,
    {
        let rc = chars_of(rules[i].as_str());
        assert(rc@ == rv[i as int]);
        if rule_matches_chars(rc.as_slice(), fqn) {
            return true;
        }
        i = i + 1;
    }
    false
}

fn open_enum_options_exec() -> (r: Option<EnumOptions>)
    ensures
        r == open_enum_options(),
{
    Some(EnumOptions { features: Some(FeatureSet { enum_type: Some(EnumType::OPEN) }) })
}

fn open_field_options_exec() -> (r: Option<FieldOptions>)
    ensures
        r == open_field_options(),
{
    Some(FieldOptions { features: Some(FeatureSet { enum_type: Some(EnumType::OPEN) }) })
}

/// An enum after the walk, with the rules its path matches marked.
fn enum_with_rules(e: &EnumDescriptorProto, prefix: &Vec<char>, rules: &[String], matched: &mut Vec<bool>) -> (r: EnumDescriptorProto)
    requires
        old(matched)@.len() == rules@.len(),
    ensures
        r.model() == enum_out(e.model(), prefix@, rule_views(rules@)),
        final(matched)@ == mark_all(old(matched)@, rule_views(rules@), enum_probes(e.model(), prefix@)),
{
    let mut out = e.duplicate();
    match &e.name {
        Some(name) => {
            let fq = join_chars(prefix, name);
            if rule_matches_chars_marking(rules, fq.as_slice(), matched) {
                out.options = open_enum_options_exec();
                assert(out.model().values =~= e.model().values);
            }
        },
        None => {
            proof {
                lemma_mark_all_empty(matched@, rule_views(rules@));
            }
        },
    }
    out
}

/// A field after the walk, with the rules its path and its enum's path
/// match marked.
fn field_with_rules(
    f: &FieldDescriptorProto,
    mp: &Vec<char>,
    rules: &[String],
    local: &NameSet,
    matched: &mut Vec<bool>,
) -> (r: FieldDescriptorProto)
    requires
        old(matched)@.len() == rules@.len(),
    ensures
        r.model() == field_out(f.model(), mp@, rule_views(rules@), local@),
        final(matched)@ == mark_all(old(matched)@, rule_views(rules@), field_probes(f.model(), mp@)),
        final(matched)@.len() == rules@.len(),
{
    let ghost rv = rule_views(rules@);
    let mut out = f.duplicate();
    let is_enum = match f.field_type {
        Some(t) => t == Type::TYPE_ENUM,
        None => false,
    };
    if !is_enum {
        proof {
            lemma_mark_all_empty(matched@, rv);
        }
        return out;
    }
    match (&f.name, &f.type_ref) {
        (Some(field_name), Some(type_text)) => {
            let ghost m0 = matched@;
            let fq = join_chars(mp, field_name);
            let field_match = rule_matches_chars_marking(rules, fq.as_slice(), matched);
            let tn = chars_of(type_text.as_str());
            let enum_is_local = local.contains_chars(tn.as_slice());
            let enum_type_match = rule_matches_chars_marking(rules, tn.as_slice(), matched);
            proof {
                lemma_mark_all_union(m0, rv, set![fq@], set![tn@]);
                assert(set![fq@].union(set![tn@]) =~= field_probes(f.model(), mp@));
            }
            let opened_via_enum = enum_is_local && enum_type_match;
            let extern_match = !enum_is_local && enum_type_match;
            if (field_match || extern_match) && !opened_via_enum {
                out.options = open_field_options_exec();
            }
            out
        },
        _ => {
            proof {
                lemma_mark_all_empty(matched@, rv);
            }
            out
        },
    }
}

} // verus!

verus! {

/// `entry` is `f`'s map entry, checked on the executable values.
fn is_map_entry_exec(entry: &DescriptorProto, mp: &Vec<char>, f: &FieldDescriptorProto) -> (r: bool)
    ensures
        r == is_map_entry_for(entry.model(), mp@, f.model()),
{
    let repeated = match f.label {
        Some(l) => l == Label::LABEL_REPEATED,
        None => false,
    };
    let message = match f.field_type {
        Some(t) => t == Type::TYPE_MESSAGE,
        None => false,
    };
    if !repeated || !message {
        return false;
    }
    let is_entry = match entry.options {
        Some(o) => match o.map_entry {
            Some(b) => b,
            None => false,
        },
        None => false,
    };
    if !is_entry {
        return false;
    }
    match (&entry.name, &f.type_ref) {
        (Some(en), Some(tr)) => {
            let want = join_chars(mp, en);
            let have = chars_of(tr.as_str());
            crate::string_map::chars_eq(have.as_slice(), want.as_slice())
        },
        _ => false,
    }
}

/// The nested message holding map field `f`'s entries, if any.
fn find_map_entry(msg: &DescriptorProto, mp: &Vec<char>, f: &FieldDescriptorProto) -> (r: Option<usize>)
    ensures
        crate::sanitize::as_int(r) == first_entry_from(msg.model().nested, mp@, f.model(), 0),
        r matches Some(j) ==> j < msg.nested_type@.len(),
{
    let ghost ms = msg.model().nested;
    let mut j: usize = 0;
    while j < msg.nested_type.len()
        invariant
            ms == msg.model().nested,
            ms.len() == msg.nested_type@.len(),
            j <= ms.len(),
            first_entry_from(ms, mp@, f.model(), 0) == first_entry_from(ms, mp@, f.model(), j as int),
        decreases ms.len() - j,
    {
        assert(ms[j as int] == msg.nested_type@[j as int].model());
        if is_map_entry_exec(&msg.nested_type[j], mp, f) {
            return Some(j);
        }
        j = j + 1;
    }
    None
}

/// The views of routes.
pub open spec fn route_views(v: Seq<(Vec<char>, Vec<char>)>) -> Seq<(Seq<char>, Seq<char>)> {
    Seq::new(v.len(), |i: int| (v[i].0@, v[i].1@))
}

/// Map entries whose map field a rule matches, as `(entry name, field
/// path)`.
fn entry_routes_exec(msg: &DescriptorProto, mp: &Vec<char>, rules: &[String]) -> (r: Vec<(Vec<char>, Vec<char>)>)
    ensures
        route_views(r@) == entry_routes(msg.model(), mp@, rule_views(rules@), msg.model().fields.len() as int),
{
    let ghost m = msg.model();
    let ghost rv = rule_views(rules@);
    let mut out: Vec<(Vec<char>, Vec<char>)> = Vec::new();
    let mut i: usize = 0;
    while i < msg.field.len()
        invariant
            m == msg.model(),
            rv == rule_views(rules@),
            i <= msg.field@.len(),
            route_views(out@) == entry_routes(m, mp@, rv, i as int),
        decreases msg.field@.len() - i,
    {
        let field = &msg.field[i];
        assert(m.fields[i as int] == field.model());
        let ghost before = out@;
        match &field.name {
            Some(field_name) => {
                match find_map_entry(msg, mp, field) {
                    Some(j) => {
                        let fq = join_chars(mp, field_name);
                        if any_rule_exec(rules, fq.as_slice()) {
                            match &msg.nested_type[j].name {
                                Some(en) => {
                                    let ec = chars_of(en.as_str());
                                    assert(m.nested[j as int] == msg.nested_type@[j as int].model());
                                    out.push((ec, fq));
                                    assert(route_views(out@) =~= route_views(before).push((en@, fq@)));
                                },
                                None => {
                                    assert(m.nested[j as int] == msg.nested_type@[j as int].model());
                                },
                            }
                        }
                    },
                    None => {},
                }
            },
            None => {},
        }
        i = i + 1;
    }
    assert(m.fields.len() == msg.field@.len());
    out
}

/// The field path of the first route naming `name`.
fn route_for(routes: &Vec<(Vec<char>, Vec<char>)>, name: &Option<String>) -> (r: Option<Vec<char>>)
    ensures
        match r {
            Some(v) => route_from(route_views(routes@), crate::descriptor::opt_text(*name), 0) == Some(v@),
            None => route_from(route_views(routes@), crate::descriptor::opt_text(*name), 0) is None,
        },
{
    let ghost rs = route_views(routes@);
    let ghost nm = crate::descriptor::opt_text(*name);
    let n = match name {
        Some(n) => chars_of(n.as_str()),
        None => {
            assert(forall|k: int| 0 <= k < rs.len() ==> nm != Some(#[trigger] rs[k].0));
            proof {
                lemma_route_none(rs, nm, 0);
            }
            return None;
        },
    };
    let mut k: usize = 0;
    while k < routes.len()
        invariant
            rs == route_views(routes@),
            nm == crate::descriptor::opt_text(*name),
            nm == Some(n@),
            k <= rs.len(),
            route_from(rs, nm, 0) == route_from(rs, nm, k as int),
        decreases rs.len() - k,
    {
        if crate::string_map::chars_eq(routes[k].0.as_slice(), n.as_slice()) {
            return Some(routes[k].1.clone());
        }
        k = k + 1;
    }
    None
}

proof fn lemma_route_none(rs: Seq<(Seq<char>, Seq<char>)>, nm: Option<Seq<char>>, k: int)
    requires
        forall|j: int| 0 <= j < rs.len() ==> nm != Some(#[trigger] rs[j].0),
        0 <= k,
    ensures
        route_from(rs, nm, k) is None,
    decreases rs.len() - k,
{
    if k < rs.len() {
        lemma_route_none(rs, nm, k + 1);
    }
}

} // verus!

verus! {

/// The fields the map-entry pass reads are the same in both sequences.
pub open spec fn same_entry_view(a: Seq<FieldModel>, b: Seq<FieldModel>) -> bool {
    a.len() == b.len() && forall|k: int|
        0 <= k < a.len() ==> (#[trigger] a[k]).number == b[k].number && a[k].ty == b[k].ty && a[k].type_ref
            == b[k].type_ref
}

proof fn lemma_message_out_fields(m: MessageModel, prefix: Seq<char>, rules: Seq<Seq<char>>, local: Set<Seq<char>>)
    ensures
        same_entry_view(message_out(m, prefix, rules, local).fields, m.fields),
{
}

proof fn lemma_entry_probes_same(
    a: Seq<FieldModel>,
    b: Seq<FieldModel>,
    route: Option<Seq<char>>,
    local: Set<Seq<char>>,
    n: int,
)
    requires
        same_entry_view(a, b),
    ensures
        entry_probes(a, route, local, n) == entry_probes(b, route, local, n),
    decreases n,
{
    if n > 0 && n <= a.len() {
        lemma_entry_probes_same(a, b, route, local, n - 1);
        assert(a[n - 1].number == b[n - 1].number);
    }
}

/// A map entry whose map field's rule routed here: its enum value field
/// opens unless its enum is local and opened by a rule.
fn entry_fix_exec(
    n: DescriptorProto,
    route: &Vec<char>,
    rules: &[String],
    local: &NameSet,
    matched: &mut Vec<bool>,
) -> (r: DescriptorProto)
    requires
        old(matched)@.len() == rules@.len(),
    ensures
        r.model() == entry_fix(n.model(), Some(route@), rule_views(rules@), local@),
        final(matched)@ == mark_all(
            old(matched)@,
            rule_views(rules@),
            entry_probes(n.model().fields, Some(route@), local@, n.model().fields.len() as int),
        ),
        final(matched)@.len() == rules@.len(),
{
    let ghost rv = rule_views(rules@);
    let ghost m = n.model();
    let ghost m0 = matched@;
    let DescriptorProto { name, field, nested_type, enum_type, oneof_decl, options } = n;
    let mut fields: Vec<FieldDescriptorProto> = Vec::new();
    proof {
        lemma_mark_all_empty(m0, rv);
    }
    let mut i: usize = 0;
    while i < field.len()
        invariant
            rv == rule_views(rules@),
            m == n.model(),
            field == n.field,
            m0.len() == rules@.len(),
            matched@.len() == rules@.len(),
            i <= field@.len(),
            fields@.len() == i,
            forall|k: int|
                0 <= k < i ==> #[trigger] fields@[k].model() == (if entry_field_opens(m.fields[k], rv, local@) {
                    opened_field(m.fields[k])
                } else {
                    m.fields[k]
                }),
            matched@ == mark_all(m0, rv, entry_probes(m.fields, Some(route@), local@, i as int)),
        decreases field@.len() - i,
    {
        let f = &field[i];
        assert(m.fields[i as int] == f.model());
        let ghost before = matched@;
        let is_value = match (f.number, f.field_type) {
            (Some(2i32), Some(t)) => t == Type::TYPE_ENUM,
            _ => false,
        };
        let mut g = f.duplicate();
        if is_value {
            let value_enum_opened = match &f.type_ref {
                Some(tn) => {
                    let tc = chars_of(tn.as_str());
                    if local.contains_chars(tc.as_slice()) {
                        let hit_tn = rule_matches_chars_marking(rules, tc.as_slice(), matched);
                        proof {
                            lemma_mark_all_union(before, rv, set![tn@], set![route@]);
                        }
                        hit_tn
                    } else {
                        proof {
                            lemma_mark_all_empty(before, rv);
                            lemma_mark_all_union(before, rv, Set::empty(), set![route@]);
                            assert(Set::<Seq<char>>::empty().union(set![route@]) =~= set![route@]);
                        }
                        false
                    }
                },
                None => {
                    proof {
                        lemma_mark_all_empty(before, rv);
                        lemma_mark_all_union(before, rv, Set::empty(), set![route@]);
                        assert(Set::<Seq<char>>::empty().union(set![route@]) =~= set![route@]);
                    }
                    false
                },
            };
            if !value_enum_opened {
                g.options = open_field_options_exec();
            }
            let _ = rule_matches_chars_marking(rules, route.as_slice(), matched);
            proof {
                let fp = entry_field_probes(m.fields[i as int], route@, local@);
                match m.fields[i as int].type_ref {
                    Some(tn) => if local@.contains(tn) {
                        assert(set![tn].union(set![route@]) =~= fp);
                    } else {
                        assert(set![route@] =~= fp);
                    },
                    None => {
                        assert(set![route@] =~= fp);
                    },
                }
            }
        } else {
            proof {
                lemma_mark_all_empty(before, rv);
                assert(entry_field_probes(m.fields[i as int], route@, local@) =~= Set::empty());
            }
        }
        proof {
            let fp = entry_field_probes(m.fields[i as int], route@, local@);
            lemma_mark_all_union(m0, rv, entry_probes(m.fields, Some(route@), local@, i as int), fp);
        }
        fields.push(g);
        i = i + 1;
    }
    let r = DescriptorProto { name, field: fields, nested_type, enum_type, oneof_decl, options };
    assert(r.model().fields =~= entry_fix(m, Some(route@), rv, local@).fields);
    r
}

/// A message after the walk, with every rule that matches a path the walk
/// tries marked.
fn message_with_rules(
    msg: &DescriptorProto,
    prefix: &Vec<char>,
    rules: &[String],
    local: &NameSet,
    matched: &mut Vec<bool>,
) -> (r: DescriptorProto)
    requires
        old(matched)@.len() == rules@.len(),
    ensures
        r.model() == message_out(msg.model(), prefix@, rule_views(rules@), local@),
        final(matched)@ == mark_all(old(matched)@, rule_views(rules@), message_probes(msg.model(), prefix@, rule_views(rules@), local@)),
        final(matched)@.len() == rules@.len(),
    decreases msg,
{
    let ghost rv = rule_views(rules@);
    let ghost m = msg.model();
    let ghost m0 = matched@;
    let name = match &msg.name {
        Some(n) => n,
        None => {
            proof {
                lemma_mark_all_empty(m0, rv);
            }
            return msg.duplicate();
        },
    };
    let mp = child_prefix_exec(prefix, name);
    let routes = entry_routes_exec(msg, &mp, rules);
    let ghost rs = route_views(routes@);
    // Fields.
    let mut fields: Vec<FieldDescriptorProto> = Vec::new();
    proof {
        lemma_mark_all_empty(m0, rv);
    }
    let mut i: usize = 0;
    while i < msg.field.len()
        invariant
            rv == rule_views(rules@),
            m == msg.model(),
            m0.len() == rules@.len(),
            matched@.len() == rules@.len(),
            i <= msg.field@.len(),
            fields@.len() == i,
            forall|k: int| 0 <= k < i ==> #[trigger] fields@[k].model() == field_out(m.fields[k], mp@, rv, local@),
            matched@ == mark_all(m0, rv, fields_probes(m.fields, mp@, i as int)),
        decreases msg.field@.len() - i,
    {
        assert(m.fields[i as int] == msg.field@[i as int].model());
        let f2 = field_with_rules(&msg.field[i], &mp, rules, local, matched);
        proof {
            lemma_mark_all_union(m0, rv, fields_probes(m.fields, mp@, i as int), field_probes(m.fields[i as int], mp@));
        }
        fields.push(f2);
        i = i + 1;
    }
    let ghost p1 = fields_probes(m.fields, mp@, m.fields.len() as int);
    // Enums.
    let mut enums: Vec<EnumDescriptorProto> = Vec::new();
    let mut i: usize = 0;
    proof {
        assert(p1.union(enums_probes(m.enums, mp@, 0)) =~= p1);
    }
    while i < msg.enum_type.len()
        invariant
            rv == rule_views(rules@),
            m == msg.model(),
            m0.len() == rules@.len(),
            matched@.len() == rules@.len(),
            i <= msg.enum_type@.len(),
            enums@.len() == i,
            forall|k: int| 0 <= k < i ==> #[trigger] enums@[k].model() == enum_out(m.enums[k], mp@, rv),
            matched@ == mark_all(m0, rv, p1.union(enums_probes(m.enums, mp@, i as int))),
        decreases msg.enum_type@.len() - i,
    {
        assert(m.enums[i as int] == msg.enum_type@[i as int].model());
        let e2 = enum_with_rules(&msg.enum_type[i], &mp, rules, matched);
        proof {
            let ep = enum_probes(m.enums[i as int], mp@);
            lemma_mark_all_union(m0, rv, p1.union(enums_probes(m.enums, mp@, i as int)), ep);
            assert(p1.union(enums_probes(m.enums, mp@, i as int)).union(ep) =~= p1.union(
                enums_probes(m.enums, mp@, i + 1),
            ));
        }
        enums.push(e2);
        i = i + 1;
    }
    let ghost p2 = p1.union(enums_probes(m.enums, mp@, m.enums.len() as int));
    // Nested messages, then the map-entry routing into them.
    let mut nested: Vec<DescriptorProto> = Vec::new();
    let mut i: usize = 0;
    proof {
        assert(p2.union(nested_probes(m.nested, mp@, rv, local@, rs, 0)) =~= p2);
    }
    while i < msg.nested_type.len()
        invariant
            rv == rule_views(rules@),
            m == msg.model(),
            rs == route_views(routes@),
            rs == entry_routes(m, mp@, rv, m.fields.len() as int),
            mp@ == child_prefix(prefix@, name@),
            m.name == Some(name@),
            m0.len() == rules@.len(),
            matched@.len() == rules@.len(),
            i <= msg.nested_type@.len(),
            nested@.len() == i,
            forall|k: int|
                0 <= k < i ==> #[trigger] nested@[k].model() == entry_fix(
                    message_out(m.nested[k], mp@, rv, local@),
                    route_from(rs, m.nested[k].name, 0),
                    rv,
                    local@,
                ),
            matched@ == mark_all(m0, rv, p2.union(nested_probes(m.nested, mp@, rv, local@, rs, i as int))),
        decreases msg.nested_type@.len() - i,
    {
        let child = &msg.nested_type[i];
        assert(m.nested[i as int] == child.model());
        assert(decreases_to!(msg => msg.nested_type@[i as int]));
        let ghost before = matched@;
        let n2 = message_with_rules(child, &mp, rules, local, matched);
        let ghost mid = matched@;
        let route = route_for(&routes, &child.name);
        let ghost ep = entry_probes(child.model().fields, route_from(rs, child.model().name, 0), local@, child.model().fields.len() as int);
        proof {
            lemma_message_out_fields(child.model(), mp@, rv, local@);
            lemma_entry_probes_same(n2.model().fields, child.model().fields, route_from(rs, child.model().name, 0), local@, child.model().fields.len() as int);
        }
        let n3 = match route {
            Some(rt) => entry_fix_exec(n2, &rt, rules, local, matched),
            None => {
                proof {
                    lemma_mark_all_empty(mid, rv);
                }
                n2
            },
        };
        proof {
            let mpb = message_probes(m.nested[i as int], mp@, rv, local@);
            let prev = p2.union(nested_probes(m.nested, mp@, rv, local@, rs, i as int));
            lemma_mark_all_union(m0, rv, prev, mpb);
            lemma_mark_all_union(m0, rv, prev.union(mpb), ep);
            assert(prev.union(mpb).union(ep) =~= p2.union(nested_probes(m.nested, mp@, rv, local@, rs, i + 1)));
        }
        nested.push(n3);
        i = i + 1;
    }
    let r = DescriptorProto {
        name: crate::descriptor::copy_text(&msg.name),
        field: fields,
        nested_type: nested,
        enum_type: enums,
        oneof_decl: crate::descriptor::copy_oneofs(&msg.oneof_decl),
        options: msg.options,
    };
    proof {
        let out = message_out(m, prefix@, rv, local@);
        assert(r.model().fields =~= out.fields);
        assert(r.model().enums =~= out.enums);
        assert(r.model().oneofs =~= out.oneofs);
        assert forall|k: int| 0 <= k < m.nested.len() implies #[trigger] r.model().nested[k] == out.nested[k] by {
            assert(r.nested_type@[k].model() == nested@[k].model());
        }
        assert(r.model().nested =~= out.nested);
    }
    r
}

} // verus!

verus! {

/// `".pkg."` for a package `pkg`; `"."` for an empty or absent one.
fn package_prefix(package: &Option<String>) -> (r: Vec<char>)
    ensures
        r@ == package_prefix_spec(crate::descriptor::opt_text(*package)),
{
    let mut r: Vec<char> = Vec::new();
    r.push('.');
    match package {
        Some(p) => {
            let pc = chars_of(p.as_str());
            if pc.len() > 0 {
                crate::text::extend_slice(&mut r, pc.as_slice(), 0, pc.len());
                r.push('.');
                assert(pc@.subrange(0, pc@.len() as int) =~= pc@);
                assert(r@ =~= seq!['.'] + p@ + seq!['.']);
            } else {
                assert(r@ =~= seq!['.']);
            }
        },
        None => {
            assert(r@ =~= seq!['.']);
        },
    }
    r
}

fn collect_enum_fqn(set: &mut NameSet, prefix: &Vec<char>, e: &EnumDescriptorProto)
    ensures
        final(set)@ == old(set)@.union(enum_probes(e.model(), prefix@)),
{
    match &e.name {
        Some(name) => {
            let fq = join_chars(prefix, name);
            set.insert_chars(fq);
            assert(final(set)@ =~= old(set)@.union(set![prefix@ + name@]));
        },
        None => {
            assert(old(set)@.union(Set::empty()) =~= old(set)@);
        },
    }
}

/// Add the FQNs of the enums a message declares, nested ones included.
fn collect_message_enum_fqns(set: &mut NameSet, prefix: &Vec<char>, msg: &DescriptorProto)
    ensures
        final(set)@ == old(set)@.union(message_enum_fqns(prefix@, msg.model())),
    decreases msg,
{
    let ghost m = msg.model();
    let ghost s0 = set@;
    let name = match &msg.name {
        Some(n) => n,
        None => {
            assert(s0.union(Set::empty()) =~= s0);
            return;
        },
    };
    let cp = child_prefix_exec(prefix, name);
    let mut i: usize = 0;
    assert(s0.union(enum_fqns(cp@, m.enums, 0)) =~= s0);
    while i < msg.enum_type.len()
        invariant
            m == msg.model(),
            i <= msg.enum_type@.len(),
            set@ == s0.union(enum_fqns(cp@, m.enums, i as int)),
        decreases msg.enum_type@.len() - i,
    {
        assert(m.enums[i as int] == msg.enum_type@[i as int].model());
        collect_enum_fqn(set, &cp, &msg.enum_type[i]);
        assert(set@ =~= s0.union(enum_fqns(cp@, m.enums, i + 1)));
        i = i + 1;
    }
    let ghost s1 = set@;
    let mut i: usize = 0;
    assert(s1.union(nested_enum_fqns(cp@, m.nested, 0)) =~= s1);
    while i < msg.nested_type.len()
        invariant
            m == msg.model(),
            i <= msg.nested_type@.len(),
            set@ == s1.union(nested_enum_fqns(cp@, m.nested, i as int)),
        decreases msg.nested_type@.len() - i,
    {
        assert(m.nested[i as int] == msg.nested_type@[i as int].model());
        assert(decreases_to!(msg => msg.nested_type@[i as int]));
        collect_message_enum_fqns(set, &cp, &msg.nested_type[i]);
        assert(set@ =~= s1.union(nested_enum_fqns(cp@, m.nested, i + 1)));
        i = i + 1;
    }
    assert(set@ =~= s0.union(message_enum_fqns(prefix@, m)));
}

/// The views of a descriptor set.
pub open spec fn file_models(files: Seq<FileDescriptorProto>) -> Seq<FileModel> {
    Seq::new(files.len(), |i: int| files[i].model())
}

/// The enums declared anywhere in the set, by dotted FQN.
fn collect_local_enums(files: &[FileDescriptorProto]) -> (r: NameSet)
    ensures
        r@ == local_enums_spec(file_models(files@), files@.len() as int),
{
    let ghost fs = file_models(files@);
    let mut set = NameSet::new();
    assert(set@ =~= Set::<Seq<char>>::empty());
    let mut i: usize = 0;
    while i < files.len()
        invariant
            fs == file_models(files@),
            i <= files@.len(),
            set@ == local_enums_spec(fs, i as int),
        decreases files@.len() - i,
    {
        let file = &files[i];
        let ghost f = file.model();
        assert(fs[i as int] == f);
        let ghost s0 = set@;
        let prefix = package_prefix(&file.package);
        let mut j: usize = 0;
        assert(s0.union(enum_fqns(prefix@, f.enums, 0)) =~= s0);
        while j < file.enum_type.len()
            invariant
                f == file.model(),
                j <= file.enum_type@.len(),
                set@ == s0.union(enum_fqns(prefix@, f.enums, j as int)),
            decreases file.enum_type@.len() - j,
        {
            assert(f.enums[j as int] == file.enum_type@[j as int].model());
            collect_enum_fqn(&mut set, &prefix, &file.enum_type[j]);
            assert(set@ =~= s0.union(enum_fqns(prefix@, f.enums, j + 1)));
            j = j + 1;
        }
        let ghost s1 = set@;
        let mut j: usize = 0;
        assert(s1.union(nested_enum_fqns(prefix@, f.messages, 0)) =~= s1);
        while j < file.message_type.len()
            invariant
                f == file.model(),
                j <= file.message_type@.len(),
                set@ == s1.union(nested_enum_fqns(prefix@, f.messages, j as int)),
            decreases file.message_type@.len() - j,
        {
            assert(f.messages[j as int] == file.message_type@[j as int].model());
            collect_message_enum_fqns(&mut set, &prefix, &file.message_type[j]);
            assert(set@ =~= s1.union(nested_enum_fqns(prefix@, f.messages, j + 1)));
            j = j + 1;
        }
        assert(set@ =~= local_enums_spec(fs, i + 1));
        i = i + 1;
    }
    set
}

/// A file after the walk.
fn file_with_rules(file: &FileDescriptorProto, rules: &[String], local: &NameSet, matched: &mut Vec<bool>) -> (r: FileDescriptorProto)
    requires
        old(matched)@.len() == rules@.len(),
    ensures
        r.model() == file_out(file.model(), rule_views(rules@), local@),
        final(matched)@ == mark_all(old(matched)@, rule_views(rules@), file_probes(file.model(), rule_views(rules@), local@)),
        final(matched)@.len() == rules@.len(),
{
    let ghost rv = rule_views(rules@);
    let ghost f = file.model();
    let ghost m0 = matched@;
    let prefix = package_prefix(&file.package);
    let mut enums: Vec<EnumDescriptorProto> = Vec::new();
    proof {
        lemma_mark_all_empty(m0, rv);
    }
    let mut i: usize = 0;
    while i < file.enum_type.len()
        invariant
            rv == rule_views(rules@),
            f == file.model(),
            m0.len() == rules@.len(),
            matched@.len() == rules@.len(),
            i <= file.enum_type@.len(),
            enums@.len() == i,
            forall|k: int| 0 <= k < i ==> #[trigger] enums@[k].model() == enum_out(f.enums[k], prefix@, rv),
            matched@ == mark_all(m0, rv, enums_probes(f.enums, prefix@, i as int)),
        decreases file.enum_type@.len() - i,
    {
        assert(f.enums[i as int] == file.enum_type@[i as int].model());
        let e2 = enum_with_rules(&file.enum_type[i], &prefix, rules, matched);
        proof {
            lemma_mark_all_union(m0, rv, enums_probes(f.enums, prefix@, i as int), enum_probes(f.enums[i as int], prefix@));
        }
        enums.push(e2);
        i = i + 1;
    }
    let ghost p1 = enums_probes(f.enums, prefix@, f.enums.len() as int);
    let ghost no_routes: Seq<(Seq<char>, Seq<char>)> = seq![];
    let mut messages: Vec<DescriptorProto> = Vec::new();
    let mut i: usize = 0;
    assert(p1.union(nested_probes(f.messages, prefix@, rv, local@, no_routes, 0)) =~= p1);
    while i < file.message_type.len()
        invariant
            rv == rule_views(rules@),
            f == file.model(),
            no_routes.len() == 0,
            m0.len() == rules@.len(),
            matched@.len() == rules@.len(),
            i <= file.message_type@.len(),
            messages@.len() == i,
            forall|k: int| 0 <= k < i ==> #[trigger] messages@[k].model() == message_out(f.messages[k], prefix@, rv, local@),
            matched@ == mark_all(m0, rv, p1.union(nested_probes(f.messages, prefix@, rv, local@, no_routes, i as int))),
        decreases file.message_type@.len() - i,
    {
        let child = &file.message_type[i];
        assert(f.messages[i as int] == child.model());
        let m2 = message_with_rules(child, &prefix, rules, local, matched);
        proof {
            let prev = p1.union(nested_probes(f.messages, prefix@, rv, local@, no_routes, i as int));
            let mpb = message_probes(f.messages[i as int], prefix@, rv, local@);
            lemma_mark_all_union(m0, rv, prev, mpb);
            assert(route_from(no_routes, f.messages[i as int].name, 0) is None);
            assert(prev.union(mpb) =~= p1.union(nested_probes(f.messages, prefix@, rv, local@, no_routes, i + 1)));
        }
        messages.push(m2);
        i = i + 1;
    }
    let r = FileDescriptorProto {
        name: crate::descriptor::copy_text(&file.name),
        package: crate::descriptor::copy_text(&file.package),
        syntax: crate::descriptor::copy_text(&file.syntax),
        message_type: messages,
        enum_type: enums,
        source_code_info: crate::descriptor::copy_source_info(&file.source_code_info),
    };
    proof {
        let out = file_out(f, rv, local@);
        assert(r.model().messages =~= out.messages);
        assert(r.model().enums =~= out.enums);
        if file.source_code_info is Some {
            assert(r.model().locations->0 =~= f.locations->0);
        }
        assert(r.model().locations == out.locations);
        assert(no_routes == Seq::<(Seq<char>, Seq<char>)>::empty());
    }
    r
}

} // verus!

verus! {

/// Every path the walk tries over a whole descriptor set.
pub open spec fn set_probes(fs: Seq<FileModel>, rules: Seq<Seq<char>>) -> Set<Seq<char>> {
    files_probes(fs, rules, local_enums_spec(fs, fs.len() as int), fs.len() as int)
}

/// Apply `EnumType(Open)` rules to a copy of the set: open matched enums
/// and inject field-level carriers for field-scoped matches. `idx_map`
/// maps each rule's position in `rules` back to the caller's override
/// index for `overall_matched` bookkeeping.
fn apply_open_enum_rules(
    files: &[FileDescriptorProto],
    rules: &[String],
    idx_map: &[usize],
    overall_matched: &mut Vec<bool>,
) -> (r: Vec<FileDescriptorProto>)
    requires
        idx_map@.len() == rules@.len(),
        forall|k: int| 0 <= k < idx_map@.len() ==> #[trigger] idx_map@[k] < old(overall_matched)@.len(),
    ensures
        r@.len() == files@.len(),
        forall|i: int|
            0 <= i < files@.len() ==> #[trigger] r@[i].model() == file_out(
                file_models(files@)[i],
                rule_views(rules@),
                local_enums_spec(file_models(files@), files@.len() as int),
            ),
        final(overall_matched)@.len() == old(overall_matched)@.len(),
        forall|j: int|
            0 <= j < old(overall_matched)@.len() ==> #[trigger] final(overall_matched)@[j] == (old(overall_matched)@[j]
                || exists|k: int|
                0 <= k < rules@.len() && idx_map@[k] == j && hit(
                    #[trigger] rule_views(rules@)[k],
                    set_probes(file_models(files@), rule_views(rules@)),
                )),
{
    let ghost rv = rule_views(rules@);
    let ghost fs = file_models(files@);
    let local = collect_local_enums(files);
    let mut matched: Vec<bool> = Vec::new();
    let mut k: usize = 0;
    while k < rules.len()
        invariant
            k <= rules@.len(),
            matched@.len() == k,
            forall|j: int| 0 <= j < k ==> !(#[trigger] matched@[j]),
        decreases rules@.len() - k,
    {
        matched.push(false);
        k = k + 1;
    }
    let ghost m0 = matched@;
    proof {
        lemma_mark_all_empty(m0, rv);
    }
    let mut out: Vec<FileDescriptorProto> = Vec::new();
    let mut i: usize = 0;
    while i < files.len()
        invariant
            rv == rule_views(rules@),
            fs == file_models(files@),
            local@ == local_enums_spec(fs, fs.len() as int),
            m0.len() == rules@.len(),
            matched@.len() == rules@.len(),
            i <= files@.len(),
            out@.len() == i,
            forall|j: int| 0 <= j < i ==> #[trigger] out@[j].model() == file_out(fs[j], rv, local@),
            matched@ == mark_all(m0, rv, files_probes(fs, rv, local@, i as int)),
        decreases files@.len() - i,
    {
        assert(fs[i as int] == files@[i as int].model());
        let f2 = file_with_rules(&files[i], rules, &local, &mut matched);
        proof {
            lemma_mark_all_union(m0, rv, files_probes(fs, rv, local@, i as int), file_probes(fs[i as int], rv, local@));
        }
        out.push(f2);
        i = i + 1;
    }
    let ghost probes = set_probes(fs, rv);
    assert(matched@ == mark_all(m0, rv, probes));
    let ghost om0 = overall_matched@;
    let mut rule_i: usize = 0;
    while rule_i < idx_map.len()
        invariant
            rv == rule_views(rules@),
            probes == set_probes(fs, rv),
            matched@ == mark_all(m0, rv, probes),
            m0.len() == rules@.len(),
            forall|j: int| 0 <= j < m0.len() ==> !(#[trigger] m0[j]),
            idx_map@.len() == rules@.len(),
            forall|k: int| 0 <= k < idx_map@.len() ==> #[trigger] idx_map@[k] < om0.len(),
            rule_i <= idx_map@.len(),
            overall_matched@.len() == om0.len(),
            forall|j: int|
                0 <= j < om0.len() ==> #[trigger] overall_matched@[j] == (om0[j] || exists|k: int|
                    0 <= k < rule_i && idx_map@[k] == j && hit(#[trigger] rv[k], probes)),
        decreases idx_map@.len() - rule_i,
    {
        let overall_i = idx_map[rule_i];
        if matched[rule_i] {
            overall_matched.set(overall_i, true);
        }
        proof {
            assert(matched@[rule_i as int] == hit(rv[rule_i as int], probes));
            assert forall|j: int| 0 <= j < om0.len() implies #[trigger] overall_matched@[j] == (om0[j] || exists|k: int|
                0 <= k < rule_i + 1 && idx_map@[k] == j && hit(#[trigger] rv[k], probes)) by {
                if j == overall_i && hit(rv[rule_i as int], probes) {
                    assert(idx_map@[rule_i as int] == j);
                }
            }
        }
        rule_i = rule_i + 1;
    }
    out
}

/// The configured paths.
pub open spec fn override_paths(ovs: Seq<(String, FeatureOverride)>) -> Seq<Seq<char>> {
    Seq::new(ovs.len(), |i: int| ovs[i].0@)
}

/// The views of `(path, override)` pairs.
pub open spec fn override_views(ovs: Seq<(String, FeatureOverride)>) -> Seq<(Seq<char>, FeatureOverride)> {
    Seq::new(ovs.len(), |i: int| (ovs[i].0@, ovs[i].1))
}

/// The first `n` overrides whose path matches none of the paths in
/// `probed`, in order.
pub open spec fn unmatched_spec(ovs: Seq<(Seq<char>, FeatureOverride)>, probed: Set<Seq<char>>, n: int) -> Seq<(Seq<char>, FeatureOverride)>
    decreases n,
{
    if n <= 0 || n > ovs.len() {
        seq![]
    } else {
        let rest = unmatched_spec(ovs, probed, n - 1);
        if hit(ovs[n - 1].0, probed) {
            rest
        } else {
            rest.push(ovs[n - 1])
        }
    }
}

/// Apply configured feature overrides to a descriptor set.
///
/// Returns `None` when no overrides are configured (callers keep using
/// the input as it is); otherwise the rewritten copy of the set and the
/// `(path, override)` pairs that matched nothing, in configured order.
pub fn apply_feature_overrides(
    files: &[FileDescriptorProto],
    overrides: &[(String, FeatureOverride)],
) -> (r: Option<AppliedFeatureOverrides>)
    ensures
        r is None <==> overrides@.len() == 0,
        r matches Some(a) ==> {
            let fs = file_models(files@);
            let rules = override_paths(overrides@);
            &&& a.files@.len() == files@.len()
            &&& forall|i: int|
                0 <= i < files@.len() ==> #[trigger] a.files@[i].model() == file_out(
                    fs[i],
                    rules,
                    local_enums_spec(fs, fs.len() as int),
                )
            &&& override_views(a.unmatched@) == unmatched_spec(
                override_views(overrides@),
                set_probes(fs, rules),
                overrides@.len() as int,
            )
        },
{
    if overrides.len() == 0 {
        return None;
    }
    let ghost rules = override_paths(overrides@);
    // Partition by override kind, keeping each rule's index into
    // `overrides` so unmatched reporting maps back to the caller's entries.
    let mut enum_open_paths: Vec<String> = Vec::new();
    let mut enum_open_idx: Vec<usize> = Vec::new();
    let mut i: usize = 0;
    while i < overrides.len()
        invariant
            i <= overrides@.len(),
            enum_open_paths@.len() == i,
            enum_open_idx@.len() == i,
            forall|k: int| 0 <= k < i ==> #[trigger] enum_open_idx@[k] == k,
            forall|k: int| 0 <= k < i ==> (#[trigger] enum_open_paths@[k])@ == overrides@[k].0@,
        decreases overrides@.len() - i,
    {
        match overrides[i].1 {
            FeatureOverride::EnumType(EnumTypeOverride::Open) => {
                enum_open_paths.push(overrides[i].0.clone());
                enum_open_idx.push(i);
            },
        }
        i = i + 1;
    }
    assert(rule_views(enum_open_paths@) =~= rules);
    let mut matched: Vec<bool> = Vec::new();
    let mut k: usize = 0;
    while k < overrides.len()
        invariant
            k <= overrides@.len(),
            matched@.len() == k,
            forall|j: int| 0 <= j < k ==> !(#[trigger] matched@[j]),
        decreases overrides@.len() - k,
    {
        matched.push(false);
        k = k + 1;
    }
    let files_out = apply_open_enum_rules(files, enum_open_paths.as_slice(), enum_open_idx.as_slice(), &mut matched);
    let ghost probes = set_probes(file_models(files@), rules);
    assert forall|j: int| 0 <= j < overrides@.len() implies #[trigger] matched@[j] == hit(rules[j], probes) by {
        if hit(rules[j], probes) {
            assert(enum_open_idx@[j] == j);
            assert(rule_views(enum_open_paths@)[j] == rules[j]);
        }
    }
    let ghost ov = override_views(overrides@);
    let mut unmatched: Vec<(String, FeatureOverride)> = Vec::new();
    let mut i: usize = 0;
    while i < overrides.len()
        invariant
            i <= overrides@.len(),
            matched@.len() == overrides@.len(),
            ov == override_views(overrides@),
            rules == override_paths(overrides@),
            forall|j: int| 0 <= j < overrides@.len() ==> #[trigger] matched@[j] == hit(rules[j], probes),
            override_views(unmatched@) == unmatched_spec(ov, probes, i as int),
        decreases overrides@.len() - i,
    {
        let ghost before = unmatched@;
        assert(ov[i as int].0 == rules[i as int]);
        if !matched[i] {
            unmatched.push((overrides[i].0.clone(), overrides[i].1));
            assert(override_views(unmatched@) =~= override_views(before).push(ov[i as int]));
        }
        i = i + 1;
    }
    Some(AppliedFeatureOverrides { files: files_out, unmatched })
}

} // verus!

verus! {

// ── What the walk may change ────────────────────────────────────────────────

/// `b` is `a`, or `a` with `enum_type = OPEN` written into its options.
pub open spec fn field_rewrite(a: FieldModel, b: FieldModel) -> bool {
    b == a || b == opened_field(a)
}

/// `b` is `a`, or `a` with `enum_type = OPEN` written into its options.
pub open spec fn enum_rewrite(a: EnumModel, b: EnumModel) -> bool {
    b == a || b == (EnumModel { name: a.name, values: a.values, options: open_enum_options() })
}

/// `b` is `a` with nothing changed but `enum_type = OPEN` written into the
/// options of some of its fields and enums, at any depth.
pub open spec fn message_rewrite(a: MessageModel, b: MessageModel) -> bool
    decreases a,
{
    &&& b.name == a.name
    &&& b.oneofs == a.oneofs
    &&& b.options == a.options
    &&& b.fields.len() == a.fields.len()
    &&& forall|k: int| 0 <= k < a.fields.len() ==> field_rewrite(a.fields[k], #[trigger] b.fields[k])
    &&& b.enums.len() == a.enums.len()
    &&& forall|k: int| 0 <= k < a.enums.len() ==> enum_rewrite(a.enums[k], #[trigger] b.enums[k])
    &&& b.nested.len() == a.nested.len()
    &&& forall|k: int| 0 <= k < a.nested.len() ==> message_rewrite(a.nested[k], #[trigger] b.nested[k])
}

/// `b` is `a` with nothing changed but `enum_type = OPEN` written into
/// some enum and field options.
pub open spec fn file_rewrite(a: FileModel, b: FileModel) -> bool {
    &&& b.name == a.name
    &&& b.package == a.package
    &&& b.syntax == a.syntax
    &&& b.locations == a.locations
    &&& b.messages.len() == a.messages.len()
    &&& forall|k: int| 0 <= k < a.messages.len() ==> message_rewrite(a.messages[k], #[trigger] b.messages[k])
    &&& b.enums.len() == a.enums.len()
    &&& forall|k: int| 0 <= k < a.enums.len() ==> enum_rewrite(a.enums[k], #[trigger] b.enums[k])
}

proof fn lemma_message_rewrite_refl(a: MessageModel)
    ensures
        message_rewrite(a, a),
    decreases a,
{
    assert forall|k: int| 0 <= k < a.nested.len() implies message_rewrite(a.nested[k], #[trigger] a.nested[k]) by {
        lemma_message_rewrite_refl(a.nested[k]);
    }
}

proof fn lemma_entry_fix_rewrite(a: MessageModel, b: MessageModel, route: Option<Seq<char>>, rules: Seq<Seq<char>>, local: Set<Seq<char>>)
    requires
        message_rewrite(a, b),
    ensures
        message_rewrite(a, entry_fix(b, route, rules, local)),
{
    let c = entry_fix(b, route, rules, local);
    if route is Some {
        assert forall|k: int| 0 <= k < a.fields.len() implies field_rewrite(a.fields[k], #[trigger] c.fields[k]) by {
            assert(field_rewrite(a.fields[k], b.fields[k]));
        }
    }
}

/// The walk changes nothing in a message but writing `enum_type = OPEN`
/// into the options of some of its enums and enum-typed fields, at any
/// depth: names, numbers, types, references and nesting are kept.
pub proof fn law_message_walk_only_opens(m: MessageModel, prefix: Seq<char>, rules: Seq<Seq<char>>, local: Set<Seq<char>>)
    ensures
        message_rewrite(m, message_out(m, prefix, rules, local)),
    decreases m,
{
    match m.name {
        None => {
            lemma_message_rewrite_refl(m);
        },
        Some(name) => {
            let out = message_out(m, prefix, rules, local);
            let mp = child_prefix(prefix, name);
            let routes = entry_routes(m, mp, rules, m.fields.len() as int);
            assert forall|k: int| 0 <= k < m.nested.len() implies message_rewrite(m.nested[k], #[trigger] out.nested[k]) by {
                law_message_walk_only_opens(m.nested[k], mp, rules, local);
                lemma_entry_fix_rewrite(
                    m.nested[k],
                    message_out(m.nested[k], mp, rules, local),
                    route_from(routes, m.nested[k].name, 0),
                    rules,
                    local,
                );
            }
        },
    }
}

/// The walk changes nothing in a file but writing `enum_type = OPEN` into
/// the options of some enums and enum-typed fields.
pub proof fn law_file_walk_only_opens(f: FileModel, rules: Seq<Seq<char>>, local: Set<Seq<char>>)
    ensures
        file_rewrite(f, file_out(f, rules, local)),
{
    let out = file_out(f, rules, local);
    let p = package_prefix_spec(f.package);
    assert forall|k: int| 0 <= k < f.messages.len() implies message_rewrite(f.messages[k], #[trigger] out.messages[k]) by {
        law_message_walk_only_opens(f.messages[k], p, rules, local);
    }
}

} // verus!

verus! {

/// Whether an override is inert: its path matches none of `probed`, the
/// enum FQNs, enum-field paths, enum type names and map-entry paths the walk
/// tried.
pub open spec fn inert_override(probed: Set<Seq<char>>) -> spec_fn((Seq<char>, FeatureOverride)) -> bool {
    |o: (Seq<char>, FeatureOverride)| !hit(o.0, probed)
}

/// The overrides reported as unmatched are exactly the configured ones whose
/// path matched nothing the walk tried, in the order they were configured.
pub proof fn law_unmatched_in_order(ovs: Seq<(Seq<char>, FeatureOverride)>, probed: Set<Seq<char>>)
    ensures
        unmatched_spec(ovs, probed, ovs.len() as int) == ovs.filter(inert_override(probed)),
    decreases ovs.len(),
{
    reveal(Seq::filter);
    if ovs.len() > 0 {
        let d = ovs.drop_last();
        law_unmatched_in_order(d, probed);
        lemma_unmatched_prefix(ovs, probed, ovs.len() - 1);
    }
}

proof fn lemma_unmatched_prefix(ovs: Seq<(Seq<char>, FeatureOverride)>, probed: Set<Seq<char>>, n: int)
    requires
        0 <= n <= ovs.len(),
    ensures
        unmatched_spec(ovs, probed, n) == unmatched_spec(ovs.take(n), probed, n),
    decreases n,
{
    if n > 0 {
        lemma_unmatched_prefix(ovs, probed, n - 1);
        lemma_unmatched_prefix(ovs.take(n), probed, n - 1);
        assert(ovs.take(n).take(n - 1) =~= ovs.take(n - 1));
    }
}

} // verus!
