//! The value layout of a generated enum.
//!
//! Proto enums may give several values one number (`allow_alias`); Rust
//! `#[repr(i32)]` enums cannot, so the first value with a given number
//! becomes the variant and every later one an alias `const` of it. The first
//! variant is the enum's `Default`. Optionally every value also gets an
//! idiomatic `UpperCamelCase` alias `const`, all or nothing per enum.

use vstd::prelude::*;
use crate::descriptor::{opt_text, EnumValueDescriptorProto, EnumValueModel};
use crate::error::CodeGenError;
use crate::name_set::{strictly_sorted, NameSet};

verus! {

/// What a proto enum value becomes in the generated Rust enum.
#[derive(Clone, Copy, Debug, PartialEq, Eq, Structural)]
pub enum ValueRole {
    /// A variant of its own.
    Primary,
    /// A `const` naming the variant of the value at this index, which came
    /// first with the same number.
    Alias(usize),
}

/// The index of the first of `vs[..upto]` numbered `n`.
pub open spec fn first_numbered(vs: Seq<EnumValueModel>, n: Option<i32>, upto: int) -> Option<int>
    decreases upto,
{
    if upto <= 0 || upto > vs.len() {
        None
    } else {
        match first_numbered(vs, n, upto - 1) {
            Some(j) => Some(j),
            None => if vs[upto - 1].number == n {
                Some(upto - 1)
            } else {
                None
            },
        }
    }
}

/// The role of value `i`: an alias of the first earlier value with its
/// number, else a variant.
pub open spec fn role_spec(vs: Seq<EnumValueModel>, i: int) -> ValueRole {
    match first_numbered(vs, vs[i].number, i) {
        Some(j) => ValueRole::Alias(j as usize),
        None => ValueRole::Primary,
    }
}

/// The path of the first missing field among the first `n` values: a name
/// is checked before its value's number.
pub open spec fn missing_field(vs: Seq<EnumValueModel>, n: int) -> Option<Seq<char>>
    decreases n,
{
    if n <= 0 || n > vs.len() {
        None
    } else {
        match missing_field(vs, n - 1) {
            Some(f) => Some(f),
            None => if vs[n - 1].name is None {
                Some("enum_value.name"@)
            } else if vs[n - 1].number is None {
                Some("enum_value.number"@)
            } else {
                None
            },
        }
    }
}

/// The models of the values.
pub open spec fn value_models(values: Seq<EnumValueDescriptorProto>) -> Seq<EnumValueModel> {
    Seq::new(values.len(), |i: int| values[i].model())
}

proof fn lemma_first_numbered(vs: Seq<EnumValueModel>, n: Option<i32>, upto: int)
    requires
        0 <= upto <= vs.len(),
    ensures
        first_numbered(vs, n, upto) matches Some(j) ==> 0 <= j < upto && vs[j].number == n && forall|k: int|
            0 <= k < j ==> vs[k].number != n,
        first_numbered(vs, n, upto) is None ==> forall|k: int| 0 <= k < upto && k < vs.len() ==> vs[k].number != n,
    decreases upto,
{
    if 0 < upto {
        lemma_first_numbered(vs, n, upto - 1);
    }
}

proof fn lemma_missing_field_stays(vs: Seq<EnumValueModel>, m: int, n: int)
    requires
        0 <= m <= n <= vs.len(),
        missing_field(vs, m) is Some,
    ensures
        missing_field(vs, n) == missing_field(vs, m),
    decreases n - m,
{
    if m < n {
        lemma_missing_field_stays(vs, m, n - 1);
    }
}

/// The role of each value of an enum, in declaration order; an error
/// naming the first missing name or number.
pub fn value_roles(values: &Vec<EnumValueDescriptorProto>) -> (r: Result<Vec<ValueRole>, CodeGenError>)
    ensures
        r is Ok <==> missing_field(value_models(values@), values@.len() as int) is None,
        r matches Err(e) ==> e matches CodeGenError::MissingField(f) && Some(f@) == missing_field(
            value_models(values@),
            values@.len() as int,
        ),
        r matches Ok(roles) ==> roles@.len() == values@.len() && forall|i: int|
            0 <= i < values@.len() ==> #[trigger] roles@[i] == role_spec(value_models(values@), i),
{
    let ghost vs = value_models(values@);
    let mut roles: Vec<ValueRole> = Vec::new();
    let mut i: usize = 0;
    while i < values.len()
        invariant
            vs == value_models(values@),
            i <= values@.len(),
            missing_field(vs, i as int) is None,
            roles@.len() == i,
            forall|k: int| 0 <= k < i ==> #[trigger] roles@[k] == role_spec(vs, k),
        decreases values@.len() - i,
    {
        let v = &values[i];
        assert(vs[i as int] == v.model());
        if v.name.is_none() {
            proof {
                assert(missing_field(vs, i + 1) == Some("enum_value.name"@));
                lemma_missing_field_stays(vs, i + 1, vs.len() as int);
            }
            return Err(CodeGenError::MissingField(String::from_str("enum_value.name")));
        }
        let number = match v.number {
            Some(n) => n,
            None => {
                proof {
                    assert(missing_field(vs, i + 1) == Some("enum_value.number"@));
                    lemma_missing_field_stays(vs, i + 1, vs.len() as int);
                }
                return Err(CodeGenError::MissingField(String::from_str("enum_value.number")));
            },
        };
        let mut j: usize = 0;
        let mut found: Option<usize> = None;
        while j < i
            invariant
                vs == value_models(values@),
                i < values@.len(),
                j <= i,
                vs[i as int].number == Some(number),
                found is None ==> first_numbered(vs, Some(number), j as int) is None,
                found matches Some(p) ==> first_numbered(vs, Some(number), j as int) == Some(p as int),
            decreases i - j,
        {
            assert(vs[j as int] == values@[j as int].model());
            if found.is_none() {
                match values[j].number {
                    Some(m) => {
                        if m == number {
                            found = Some(j);
                        }
                    },
                    None => {},
                }
            }
            j = j + 1;
        }
        let role = match found {
            Some(p) => ValueRole::Alias(p),
            None => ValueRole::Primary,
        };
        roles.push(role);
        i = i + 1;
    }
    Ok(roles)
}

proof fn lemma_primaries_distinct(vs: Seq<EnumValueModel>, i: int, j: int)
    requires
        0 <= i < j < vs.len(),
        role_spec(vs, j) == ValueRole::Primary,
    ensures
        vs[i].number != vs[j].number,
{
    lemma_first_numbered(vs, vs[j].number, j);
}

proof fn lemma_alias_target(vs: Seq<EnumValueModel>, i: int)
    requires
        0 <= i < vs.len(),
        vs.len() <= usize::MAX,
    ensures
        role_spec(vs, i) matches ValueRole::Alias(p) ==> p < i && vs[p as int].number == vs[i].number && role_spec(
            vs,
            p as int,
        ) == ValueRole::Primary,
        role_spec(vs, i) is Primary || exists|p: int| 0 <= p < i && role_spec(vs, p) == ValueRole::Primary && vs[p].number == vs[i].number,
{
    lemma_first_numbered(vs, vs[i].number, i);
    if let Some(j) = first_numbered(vs, vs[i].number, i) {
        lemma_first_numbered(vs, vs[j].number, j);
        assert(first_numbered(vs, vs[j].number, j) is None);
        assert(role_spec(vs, j) == ValueRole::Primary);
        assert((j as usize) as int == j);
    }
}

/// The value layout is sound: variants have distinct numbers, every alias
/// names an earlier variant with its own number, and so each declared
/// number has exactly one variant. The generated `from_i32` match thus has
/// no overlapping arms and reaches every declared number.
pub proof fn law_value_roles_sound(vs: Seq<EnumValueModel>)
    requires
        vs.len() <= usize::MAX,
    ensures
        forall|i: int, j: int|
            0 <= i < j < vs.len() && #[trigger] role_spec(vs, i) == ValueRole::Primary && #[trigger] role_spec(vs, j)
                == ValueRole::Primary ==> vs[i].number != vs[j].number,
        forall|i: int|
            0 <= i < vs.len() ==> (#[trigger] role_spec(vs, i) matches ValueRole::Alias(p) ==> p < i && vs[p as int].number
                == vs[i].number && role_spec(vs, p as int) == ValueRole::Primary),
{
    assert forall|i: int, j: int|
        0 <= i < j < vs.len() && #[trigger] role_spec(vs, i) == ValueRole::Primary && #[trigger] role_spec(vs, j)
            == ValueRole::Primary implies vs[i].number != vs[j].number by {
        lemma_primaries_distinct(vs, i, j);
    }
    assert forall|i: int| 0 <= i < vs.len() implies (#[trigger] role_spec(vs, i) matches ValueRole::Alias(p) ==> p < i
        && vs[p as int].number == vs[i].number && role_spec(vs, p as int) == ValueRole::Primary) by {
        lemma_alias_target(vs, i);
    }
}

} // verus!

verus! {

// ── Idiomatic CamelCase aliases ─────────────────────────────────────────────

/// One proto enum value, as the alias rule sees it. The case conversions
/// are the caller's: `camel_full` is the `UpperCamelCase` form of
/// `proto_name`, and `camel_stripped` that of `proto_name` without the
/// enum's `SHOUTY_SNAKE_` prefix, when it carries one; `ident_full` and
/// `ident_stripped` are the Rust identifiers those forms escape to.
pub struct AliasRecord {
    /// The proto value name.
    pub proto_name: String,
    /// The variant an alias `const` would name.
    pub target: String,
    /// The value's own variant or alias identifier.
    pub own_ident: String,
    pub camel_full: String,
    pub camel_stripped: Option<String>,
    pub ident_full: String,
    pub ident_stripped: Option<String>,
}

/// What the alias rule decides for one enum.
#[derive(Debug, PartialEq)]
pub enum AliasOutcome {
    /// `(alias identifier, target variant)` for every value whose alias
    /// differs from its own identifier, in declaration order.
    Emit(Vec<(String, String)>),
    /// No alias at all: the identifiers claimed by more than one value
    /// (each with its claimants, both in increasing order), and the values
    /// whose CamelCase form is no identifier.
    Suppressed { conflicts: Vec<(String, Vec<String>)>, invalid: Vec<String> },
}

/// [`AliasOutcome`] over texts.
pub enum AliasOutcomeModel {
    Emit(Seq<(Seq<char>, Seq<char>)>),
    Suppressed(Seq<(Seq<char>, Seq<Seq<char>>)>, Seq<Seq<char>>),
}

/// The views of a list of strings.
pub open spec fn text_views(v: Seq<String>) -> Seq<Seq<char>> {
    Seq::new(v.len(), |i: int| v[i]@)
}

impl View for AliasOutcome {
    type V = AliasOutcomeModel;

    open spec fn view(&self) -> AliasOutcomeModel {
        match self {
            AliasOutcome::Emit(v) => AliasOutcomeModel::Emit(Seq::new(v@.len(), |i: int| (v@[i].0@, v@[i].1@))),
            AliasOutcome::Suppressed { conflicts, invalid } => AliasOutcomeModel::Suppressed(
                Seq::new(conflicts@.len(), |i: int| (conflicts@[i].0@, text_views(conflicts@[i].1@))),
                text_views(invalid@),
            ),
        }
    }
}

/// A usable identifier: non-empty and not starting with an ASCII digit.
pub open spec fn valid_ident(c: Seq<char>) -> bool {
    c.len() > 0 && !('0' <= c[0] && c[0] <= '9')
}

/// The enum prefix is stripped when every value carries it and stays a
/// usable identifier without it.
pub open spec fn strip_all(recs: Seq<AliasRecord>) -> bool {
    forall|i: int|
        0 <= i < recs.len() ==> ((#[trigger] recs[i]).camel_stripped is Some && valid_ident(
            recs[i].camel_stripped->0@,
        ) && recs[i].ident_stripped is Some)
}

/// The CamelCase form value `i` claims.
pub open spec fn candidate(recs: Seq<AliasRecord>, i: int) -> Seq<char> {
    if strip_all(recs) {
        recs[i].camel_stripped->0@
    } else {
        recs[i].camel_full@
    }
}

/// The identifier value `i` claims.
pub open spec fn claimed(recs: Seq<AliasRecord>, i: int) -> Seq<char> {
    if strip_all(recs) {
        recs[i].ident_stripped->0@
    } else {
        recs[i].ident_full@
    }
}

/// Value `i` claims a usable identifier.
pub open spec fn claims_valid(recs: Seq<AliasRecord>, i: int) -> bool {
    valid_ident(candidate(recs, i))
}

/// The identifiers claimed by values with a usable CamelCase form.
pub open spec fn claimed_keys(recs: Seq<AliasRecord>) -> Set<Seq<char>> {
    Set::new(|k: Seq<char>| exists|i: int| 0 <= i < recs.len() && claims_valid(recs, i) && claimed(recs, i) == k)
}

/// The last of the first `n` values whose own identifier is `key`.
pub open spec fn last_own(recs: Seq<AliasRecord>, key: Seq<char>, n: int) -> Option<int>
    decreases n,
{
    if n <= 0 || n > recs.len() {
        None
    } else if recs[n - 1].own_ident@ == key {
        Some(n - 1)
    } else {
        last_own(recs, key, n - 1)
    }
}

/// The proto names of the first `n` values claiming `key`.
pub open spec fn claimants_upto(recs: Seq<AliasRecord>, key: Seq<char>, n: int) -> Set<Seq<char>> {
    Set::new(
        |x: Seq<char>|
            exists|i: int| 0 <= i < n && claims_valid(recs, i) && claimed(recs, i) == key && recs[i].proto_name@ == x,
    )
}

/// The values claiming identifier `key`: those whose alias lands on it, and
/// the value that already owns it as its variant or alias identifier.
pub open spec fn claimants(recs: Seq<AliasRecord>, key: Seq<char>) -> Set<Seq<char>> {
    let base = claimants_upto(recs, key, recs.len() as int);
    match last_own(recs, key, recs.len() as int) {
        Some(j) => base.insert(recs[j].proto_name@),
        None => base,
    }
}

/// A set with two different members.
pub open spec fn has_two(s: Set<Seq<char>>) -> bool {
    exists|a: Seq<char>, b: Seq<char>| s.contains(a) && s.contains(b) && a != b
}

/// The identifiers claimed more than once.
pub open spec fn conflict_keys(recs: Seq<AliasRecord>) -> Set<Seq<char>> {
    Set::new(|k: Seq<char>| claimed_keys(recs).contains(k) && has_two(claimants(recs, k)))
}

/// The values whose CamelCase form is no usable identifier.
pub open spec fn invalid_names(recs: Seq<AliasRecord>) -> Set<Seq<char>> {
    Set::new(|x: Seq<char>| exists|i: int| 0 <= i < recs.len() && !claims_valid(recs, i) && recs[i].proto_name@ == x)
}

/// The own identifiers of the values.
pub open spec fn own_idents(recs: Seq<AliasRecord>) -> Set<Seq<char>> {
    Set::new(|x: Seq<char>| exists|j: int| 0 <= j < recs.len() && recs[j].own_ident@ == x)
}

/// The aliases of the first `n` values, skipping those equal to an existing
/// identifier.
pub open spec fn emitted(recs: Seq<AliasRecord>, n: int) -> Seq<(Seq<char>, Seq<char>)>
    decreases n,
{
    if n <= 0 || n > recs.len() {
        seq![]
    } else if own_idents(recs).contains(claimed(recs, n - 1)) {
        emitted(recs, n - 1)
    } else {
        emitted(recs, n - 1).push((claimed(recs, n - 1), recs[n - 1].target@))
    }
}

/// The names of `s` in increasing order.
pub open spec fn sorted_of(s: Set<Seq<char>>) -> Seq<Seq<char>> {
    choose|q: Seq<Seq<char>>| strictly_sorted(q) && q.to_set() == s
}

/// The alias rule: all aliases when no identifier is claimed twice and
/// every value has a usable CamelCase form; otherwise none, with the
/// conflicts and invalid values listed.
pub open spec fn idiomatic_aliases_spec(recs: Seq<AliasRecord>) -> AliasOutcomeModel {
    if recs.len() == 0 {
        AliasOutcomeModel::Emit(seq![])
    } else if conflict_keys(recs) == Set::<Seq<char>>::empty() && invalid_names(recs) == Set::<Seq<char>>::empty() {
        AliasOutcomeModel::Emit(emitted(recs, recs.len() as int))
    } else {
        let ks = sorted_of(conflict_keys(recs));
        AliasOutcomeModel::Suppressed(
            Seq::new(ks.len(), |i: int| (ks[i], sorted_of(claimants(recs, ks[i])))),
            sorted_of(invalid_names(recs)),
        )
    }
}

} // verus!

verus! {

/// The identifiers claimed by the first `n` values with a usable form.
pub open spec fn claimed_keys_upto(recs: Seq<AliasRecord>, n: int) -> Set<Seq<char>> {
    Set::new(|k: Seq<char>| exists|i: int| 0 <= i < n && claims_valid(recs, i) && claimed(recs, i) == k)
}

/// The first `n` values without a usable form.
pub open spec fn invalid_upto(recs: Seq<AliasRecord>, n: int) -> Set<Seq<char>> {
    Set::new(|x: Seq<char>| exists|i: int| 0 <= i < n && !claims_valid(recs, i) && recs[i].proto_name@ == x)
}

/// The own identifiers of the first `n` values.
pub open spec fn own_upto(recs: Seq<AliasRecord>, n: int) -> Set<Seq<char>> {
    Set::new(|x: Seq<char>| exists|j: int| 0 <= j < n && recs[j].own_ident@ == x)
}

proof fn lemma_sorted_of(e: Seq<Seq<char>>, s: Set<Seq<char>>)
    requires
        strictly_sorted(e),
        e.to_set() == s,
    ensures
        sorted_of(s) == e,
{
    let c = sorted_of(s);
    assert(strictly_sorted(c) && c.to_set() == s);
    crate::name_set::lemma_sorted_unique(c, e);
}

proof fn lemma_two_iff_len(e: Seq<Seq<char>>)
    requires
        strictly_sorted(e),
    ensures
        has_two(e.to_set()) <==> e.len() > 1,
        e.to_set() == Set::<Seq<char>>::empty() <==> e.len() == 0,
{
    if e.len() > 1 {
        assert(e.to_set().contains(e[0]) && e.to_set().contains(e[1]));
        crate::name_set::lemma_lex_irreflexive(e[0]);
        assert(e[0] != e[1]);
    } else if e.len() == 1 {
        if has_two(e.to_set()) {
            let (a, b) = choose|a: Seq<char>, b: Seq<char>| e.to_set().contains(a) && e.to_set().contains(b) && a != b;
            assert(a == e[0] && b == e[0]);
        }
        assert(e.to_set().contains(e[0]));
    } else {
        assert(e.to_set() =~= Set::<Seq<char>>::empty());
    }
}

fn valid_ident_exec(s: &String) -> (r: bool)
    ensures
        r == valid_ident(s@),
{
    let c = crate::text::chars_of(s.as_str());
    c.len() > 0 && !('0' <= c[0] && c[0] <= '9')
}

/// Whether the enum prefix is stripped.
fn strip_all_exec(recs: &Vec<AliasRecord>) -> (r: bool)
    ensures
        r == strip_all(recs@),
{
    let mut i: usize = 0;
    while i < recs.len()
        invariant
            i <= recs@.len(),
            forall|k: int|
                0 <= k < i ==> ((#[trigger] recs@[k]).camel_stripped is Some && valid_ident(
                    recs@[k].camel_stripped->0@,
                ) && recs@[k].ident_stripped is Some),
        decreases recs@.len() - i,
    {
        let r = &recs[i];
        let ok = match (&r.camel_stripped, &r.ident_stripped) {
            (Some(c), Some(_)) => valid_ident_exec(c),
            _ => false,
        };
        if !ok {
            return false;
        }
        i = i + 1;
    }
    true
}

/// Whether value `i` has a usable form, and the identifier it claims.
fn claim_of(recs: &Vec<AliasRecord>, i: usize, strip: bool) -> (r: (bool, String))
    requires
        i < recs@.len(),
        strip == strip_all(recs@),
    ensures
        r.0 == claims_valid(recs@, i as int),
        r.1@ == claimed(recs@, i as int),
{
    let rec = &recs[i];
    if strip {
        assert(recs@[i as int].camel_stripped is Some && recs@[i as int].ident_stripped is Some);
        match (&rec.camel_stripped, &rec.ident_stripped) {
            (Some(c), Some(id)) => (valid_ident_exec(c), id.clone()),
            _ => (false, String::new()),
        }
    } else {
        (valid_ident_exec(&rec.camel_full), rec.ident_full.clone())
    }
}

/// The proto names claiming identifier `key`.
fn claimants_exec(recs: &Vec<AliasRecord>, key: &Vec<char>, strip: bool) -> (r: NameSet)
    requires
        strip == strip_all(recs@),
    ensures
        r@ == claimants(recs@, key@),
{
    let mut set = NameSet::new();
    let mut owner: Option<usize> = None;
    assert(set@ =~= claimants_upto(recs@, key@, 0));
    let mut i: usize = 0;
    while i < recs.len()
        invariant
            strip == strip_all(recs@),
            i <= recs@.len(),
            set@ == claimants_upto(recs@, key@, i as int),
            crate::sanitize::as_int(owner) == last_own(recs@, key@, i as int),
            owner matches Some(j) ==> j < i,
        decreases recs@.len() - i,
    {
        let (ok, id) = claim_of(recs, i, strip);
        let idc = crate::text::chars_of(id.as_str());
        let ghost before = set@;
        if ok && crate::string_map::chars_eq(idc.as_slice(), key.as_slice()) {
            set.insert(recs[i].proto_name.clone());
            assert(set@ =~= claimants_upto(recs@, key@, i + 1));
        } else {
            assert(set@ =~= claimants_upto(recs@, key@, i + 1));
        }
        let own = crate::text::chars_of(recs[i].own_ident.as_str());
        if crate::string_map::chars_eq(own.as_slice(), key.as_slice()) {
            owner = Some(i);
        }
        i = i + 1;
    }
    match owner {
        Some(j) => {
            set.insert(recs[j].proto_name.clone());
        },
        None => {},
    }
    set
}

/// The names of a set as strings, in increasing order.
fn names_to_strings(s: &NameSet) -> (v: Vec<String>)
    ensures
        text_views(v@) == s.elems(),
{
    let mut v: Vec<String> = Vec::new();
    let mut i: usize = 0;
    while i < s.len()
        invariant
            i <= s.elems().len(),
            v@.len() == i,
            forall|k: int| 0 <= k < i ==> #[trigger] v@[k]@ == s.elems()[k],
        decreases s.elems().len() - i,
    {
        v.push(crate::text::string_from_chars(s.get(i)));
        i = i + 1;
    }
    assert(text_views(v@) =~= s.elems());
    v
}

} // verus!

verus! {

/// Decide the idiomatic `UpperCamelCase` alias `const`s of an enum, all or
/// nothing: when any two values would claim one identifier (an alias
/// landing on another alias or on an existing variant) or a value's
/// CamelCase form is no identifier, no alias is emitted and the clashes are
/// reported instead. The enum prefix is stripped only when every value
/// carries it and stays usable without it.
pub fn idiomatic_aliases(records: &Vec<AliasRecord>) -> (r: AliasOutcome)
    ensures
        r@ == idiomatic_aliases_spec(records@),
{
    let ghost recs = records@;
    if records.len() == 0 {
        let v: Vec<(String, String)> = Vec::new();
        assert(Seq::new(v@.len(), |q: int| (v@[q].0@, v@[q].1@)) =~= Seq::<(Seq<char>, Seq<char>)>::empty());
        return AliasOutcome::Emit(v);
    }
    let strip = strip_all_exec(records);
    // The identifiers claimed, and the values with no usable form.
    let mut keys = NameSet::new();
    let mut invalid = NameSet::new();
    assert(keys@ =~= claimed_keys_upto(recs, 0));
    assert(invalid@ =~= invalid_upto(recs, 0));
    let mut i: usize = 0;
    while i < records.len()
        invariant
            recs == records@,
            strip == strip_all(recs),
            i <= recs.len(),
            keys@ == claimed_keys_upto(recs, i as int),
            invalid@ == invalid_upto(recs, i as int),
        decreases recs.len() - i,
    {
        let (ok, id) = claim_of(records, i, strip);
        if ok {
            keys.insert(id);
        } else {
            invalid.insert(records[i].proto_name.clone());
        }
        assert(keys@ =~= claimed_keys_upto(recs, i + 1));
        assert(invalid@ =~= invalid_upto(recs, i + 1));
        i = i + 1;
    }
    assert(keys@ =~= claimed_keys(recs));
    assert(invalid@ =~= invalid_names(recs));
    // The identifiers claimed more than once.
    let _ = keys.is_sorted();
    let mut ckeys = NameSet::new();
    let mut k: usize = 0;
    assert(ckeys@ =~= Set::new(|x: Seq<char>| keys.elems().take(0).to_set().contains(x) && has_two(claimants(recs, x))));
    while k < keys.len()
        invariant
            recs == records@,
            strip == strip_all(recs),
            keys@ == claimed_keys(recs),
            k <= keys.elems().len(),
            ckeys@ == Set::new(|x: Seq<char>| keys.elems().take(k as int).to_set().contains(x) && has_two(claimants(recs, x))),
        decreases keys.elems().len() - k,
    {
        let key = keys.get(k);
        let cl = claimants_exec(records, key, strip);
        let _ = cl.is_sorted();
        proof {
            lemma_two_iff_len(cl.elems());
        }
        let ghost before = ckeys@;
        if cl.len() > 1 {
            ckeys.insert_chars(key.clone());
        }
        proof {
            let t0 = keys.elems().take(k as int);
            let t1 = keys.elems().take(k + 1);
            assert(t1 =~= t0.push(key@));
            t0.lemma_push_to_set_commute(key@);
        }
        assert(ckeys@ =~= Set::new(|x: Seq<char>| keys.elems().take(k + 1).to_set().contains(x) && has_two(claimants(recs, x))));
        k = k + 1;
    }
    assert(keys.elems().take(keys.elems().len() as int) =~= keys.elems());
    assert(ckeys@ =~= conflict_keys(recs));
    let _ = ckeys.is_sorted();
    let _ = invalid.is_sorted();
    proof {
        lemma_two_iff_len(ckeys.elems());
        lemma_two_iff_len(invalid.elems());
    }
    if ckeys.len() == 0 && invalid.len() == 0 {
        // Every alias, but those equal to an existing identifier.
        let mut own = NameSet::new();
        assert(own@ =~= own_upto(recs, 0));
        let mut j: usize = 0;
        while j < records.len()
            invariant
                recs == records@,
                j <= recs.len(),
                own@ == own_upto(recs, j as int),
            decreases recs.len() - j,
        {
            own.insert(records[j].own_ident.clone());
            assert(own@ =~= own_upto(recs, j + 1));
            j = j + 1;
        }
        assert(own@ =~= own_idents(recs));
        let mut out: Vec<(String, String)> = Vec::new();
        let mut i: usize = 0;
        while i < records.len()
            invariant
                recs == records@,
                strip == strip_all(recs),
                own@ == own_idents(recs),
                i <= recs.len(),
                Seq::new(out@.len(), |q: int| (out@[q].0@, out@[q].1@)) == emitted(recs, i as int),
            decreases recs.len() - i,
        {
            let (_, id) = claim_of(records, i, strip);
            let ghost before = Seq::new(out@.len(), |q: int| (out@[q].0@, out@[q].1@));
            if !own.contains(id.as_str()) {
                out.push((id, records[i].target.clone()));
                assert(Seq::new(out@.len(), |q: int| (out@[q].0@, out@[q].1@)) =~= before.push(
                    (claimed(recs, i as int), recs[i as int].target@),
                ));
            }
            i = i + 1;
        }
        let r = AliasOutcome::Emit(out);
        return r;
    }
    // Suppressed: every clash and every unusable value, in order.
    let mut conflicts: Vec<(String, Vec<String>)> = Vec::new();
    let ghost ks = ckeys.elems();
    proof {
        lemma_sorted_of(ks, conflict_keys(recs));
        lemma_sorted_of(invalid.elems(), invalid_names(recs));
    }
    let mut k: usize = 0;
    while k < ckeys.len()
        invariant
            recs == records@,
            strip == strip_all(recs),
            ks == ckeys.elems(),
            k <= ks.len(),
            conflicts@.len() == k,
            forall|q: int|
                0 <= q < k ==> (#[trigger] conflicts@[q]).0@ == ks[q] && text_views(conflicts@[q].1@) == sorted_of(
                    claimants(recs, ks[q]),
                ),
        decreases ks.len() - k,
    {
        let key = ckeys.get(k);
        let cl = claimants_exec(records, key, strip);
        let _ = cl.is_sorted();
        proof {
            lemma_sorted_of(cl.elems(), claimants(recs, key@));
        }
        let names = names_to_strings(&cl);
        conflicts.push((crate::text::string_from_chars(key), names));
        k = k + 1;
    }
    let inv = names_to_strings(&invalid);
    let r = AliasOutcome::Suppressed { conflicts, invalid: inv };
    proof {
        let cv = Seq::new(conflicts@.len(), |q: int| (conflicts@[q].0@, text_views(conflicts@[q].1@)));
        assert(cv =~= Seq::new(ks.len(), |q: int| (ks[q], sorted_of(claimants(recs, ks[q])))));
    }
    r
}

} // verus!

verus! {

/// Value names are unique within an enum.
pub open spec fn distinct_names(recs: Seq<AliasRecord>) -> bool {
    forall|i: int, j: int| 0 <= i < j < recs.len() ==> #[trigger] recs[i].proto_name@ != #[trigger] recs[j].proto_name@
}

proof fn lemma_emitted(recs: Seq<AliasRecord>, n: int)
    requires
        0 <= n <= recs.len(),
        distinct_names(recs),
        conflict_keys(recs) == Set::<Seq<char>>::empty(),
        invalid_names(recs) == Set::<Seq<char>>::empty(),
    ensures
        forall|a: int|
            0 <= a < emitted(recs, n).len() ==> exists|i: int|
                0 <= i < n && (#[trigger] emitted(recs, n)[a]).0 == claimed(recs, i) && !own_idents(recs).contains(
                    claimed(recs, i),
                ),
        forall|a: int, b: int|
            0 <= a < b < emitted(recs, n).len() ==> (#[trigger] emitted(recs, n)[a]).0 != (#[trigger] emitted(
                recs,
                n,
            )[b]).0,
    decreases n,
{
    if n > 0 {
        lemma_emitted(recs, n - 1);
        let prev = emitted(recs, n - 1);
        let c = claimed(recs, n - 1);
        if !own_idents(recs).contains(c) {
            let cur = emitted(recs, n);
            assert(cur == prev.push((c, recs[n - 1].target@)));
            assert forall|a: int| 0 <= a < prev.len() implies (#[trigger] prev[a]).0 != c by {
                let i = choose|i: int| 0 <= i < n - 1 && prev[a].0 == claimed(recs, i) && !own_idents(recs).contains(
                    claimed(recs, i),
                );
                if prev[a].0 == c {
                    // Both values claim `c`, so it would be a conflict.
                    assert(!invalid_names(recs).contains(recs[i].proto_name@));
                    assert(!invalid_names(recs).contains(recs[n - 1].proto_name@));
                    assert(claims_valid(recs, i));
                    assert(claims_valid(recs, n - 1));
                    let cl = claimants(recs, c);
                    assert(claimants_upto(recs, c, recs.len() as int).contains(recs[i].proto_name@));
                    assert(claimants_upto(recs, c, recs.len() as int).contains(recs[n - 1].proto_name@));
                    assert(cl.contains(recs[i].proto_name@) && cl.contains(recs[n - 1].proto_name@));
                    assert(recs[i].proto_name@ != recs[n - 1].proto_name@);
                    assert(has_two(cl));
                    assert(claimed_keys(recs).contains(c));
                    assert(conflict_keys(recs).contains(c));
                }
            }
            assert forall|a: int| 0 <= a < cur.len() implies exists|i: int|
                0 <= i < n && (#[trigger] cur[a]).0 == claimed(recs, i) && !own_idents(recs).contains(claimed(recs, i)) by {
                if a < prev.len() {
                    assert(cur[a] == prev[a]);
                } else {
                    assert(cur[a].0 == claimed(recs, n - 1));
                }
            }
            assert forall|a: int, b: int| 0 <= a < b < cur.len() implies (#[trigger] cur[a]).0 != (#[trigger] cur[b]).0 by {
                assert(cur[a] == prev[a]);
                if b < prev.len() {
                    assert(cur[b] == prev[b]);
                }
            }
        }
    }
}

/// When aliases are emitted, their names are pairwise distinct and none
/// equals an existing variant or alias identifier of the enum, so the
/// generated `const`s never clash or shadow.
pub proof fn law_aliases_do_not_clash(recs: Seq<AliasRecord>)
    requires
        distinct_names(recs),
    ensures
        idiomatic_aliases_spec(recs) matches AliasOutcomeModel::Emit(v) ==> {
            &&& forall|a: int, b: int| 0 <= a < b < v.len() ==> (#[trigger] v[a]).0 != (#[trigger] v[b]).0
            &&& forall|a: int, j: int| 0 <= a < v.len() && 0 <= j < recs.len() ==> (#[trigger] v[a]).0 != (
            #[trigger] recs[j]).own_ident@
        },
{
    if recs.len() > 0 && conflict_keys(recs) == Set::<Seq<char>>::empty() && invalid_names(recs) == Set::<
        Seq<char>,
    >::empty() {
        let n = recs.len() as int;
        lemma_emitted(recs, n);
        let v = emitted(recs, n);
        assert forall|a: int, j: int| 0 <= a < v.len() && 0 <= j < recs.len() implies (#[trigger] v[a]).0 != (
        #[trigger] recs[j]).own_ident@ by {
            let i = choose|i: int| 0 <= i < n && v[a].0 == claimed(recs, i) && !own_idents(recs).contains(claimed(recs, i));
            if v[a].0 == recs[j].own_ident@ {
                assert(own_idents(recs).contains(recs[j].own_ident@));
            }
        }
    } else if recs.len() == 0 {
        assert(idiomatic_aliases_spec(recs) == AliasOutcomeModel::Emit(seq![]));
    }
}

} // verus!

verus! {

/// The alias value `i` would get: its claimed identifier and its target.
pub open spec fn alias_pair(recs: Seq<AliasRecord>, i: int) -> (Seq<char>, Seq<char>) {
    (claimed(recs, i), recs[i].target@)
}

/// `x` is the alias of one of the first `n` values whose claimed identifier
/// the enum does not already have.
pub open spec fn alias_of_value(recs: Seq<AliasRecord>, n: int, x: (Seq<char>, Seq<char>)) -> bool {
    exists|i: int| 0 <= i < n && !own_idents(recs).contains(claimed(recs, i)) && x == #[trigger] alias_pair(recs, i)
}

proof fn lemma_emitted_members(recs: Seq<AliasRecord>, n: int)
    requires
        0 <= n <= recs.len(),
    ensures
        forall|i: int| 0 <= i < n && !own_idents(recs).contains(claimed(recs, i))
            ==> emitted(recs, n).contains(#[trigger] alias_pair(recs, i)),
        forall|j: int| 0 <= j < emitted(recs, n).len() ==> alias_of_value(recs, n, #[trigger] emitted(recs, n)[j]),
    decreases n,
{
    if n > 0 {
        lemma_emitted_members(recs, n - 1);
        let prev = emitted(recs, n - 1);
        let cur = emitted(recs, n);
        if !own_idents(recs).contains(claimed(recs, n - 1)) {
            assert(cur == prev.push(alias_pair(recs, n - 1)));
            assert forall|i: int| 0 <= i < n && !own_idents(recs).contains(claimed(recs, i))
                implies cur.contains(#[trigger] alias_pair(recs, i)) by {
                if i < n - 1 {
                    assert(prev.contains(alias_pair(recs, i)));
                    let j = choose|j: int| 0 <= j < prev.len() && prev[j] == alias_pair(recs, i);
                    assert(cur[j] == prev[j]);
                } else {
                    assert(cur[prev.len() as int] == alias_pair(recs, i));
                }
            }
            assert forall|j: int| 0 <= j < cur.len() implies alias_of_value(recs, n, #[trigger] cur[j]) by {
                if j < prev.len() {
                    assert(cur[j] == prev[j]);
                    assert(alias_of_value(recs, n - 1, prev[j]));
                    let i = choose|i: int| 0 <= i < n - 1 && !own_idents(recs).contains(claimed(recs, i)) && prev[j] == #[trigger] alias_pair(recs, i);
                    assert(cur[j] == alias_pair(recs, i));
                } else {
                    assert(cur[j] == alias_pair(recs, n - 1));
                }
            }
        } else {
            assert(cur == prev);
            assert forall|j: int| 0 <= j < cur.len() implies alias_of_value(recs, n, #[trigger] cur[j]) by {
                assert(alias_of_value(recs, n - 1, prev[j]));
                let i = choose|i: int| 0 <= i < n - 1 && !own_idents(recs).contains(claimed(recs, i)) && prev[j] == #[trigger] alias_pair(recs, i);
                assert(cur[j] == alias_pair(recs, i));
            }
        }
    }
}

/// Aliases are all or nothing per enum: they are emitted exactly when no
/// identifier is claimed twice and every value has a usable CamelCase form,
/// and then every value gets its alias, except one equal to an identifier
/// the enum already has, and nothing else is emitted. Otherwise none is.
pub proof fn law_aliases_all_or_nothing(recs: Seq<AliasRecord>)
    ensures
        (idiomatic_aliases_spec(recs) is Emit) <==> (conflict_keys(recs) == Set::<Seq<char>>::empty()
            && invalid_names(recs) == Set::<Seq<char>>::empty()),
        idiomatic_aliases_spec(recs) matches AliasOutcomeModel::Emit(v) ==> {
            &&& forall|i: int| 0 <= i < recs.len() && !own_idents(recs).contains(claimed(recs, i))
                ==> v.contains(#[trigger] alias_pair(recs, i))
            &&& forall|j: int| 0 <= j < v.len() ==> alias_of_value(recs, recs.len() as int, #[trigger] v[j])
        },
{
    if recs.len() == 0 {
        assert(conflict_keys(recs) =~= Set::<Seq<char>>::empty());
        assert(invalid_names(recs) =~= Set::<Seq<char>>::empty());
    } else {
        lemma_emitted_members(recs, recs.len() as int);
    }
}

} // verus!

verus! {

// ── The generated enum's surface ────────────────────────────────────────────

/// The variant value `i` stands for: itself, or the earlier variant it
/// aliases.
pub open spec fn primary_of(vs: Seq<EnumValueModel>, i: int) -> int {
    match role_spec(vs, i) {
        ValueRole::Alias(p) => p as int,
        ValueRole::Primary => i,
    }
}

/// The indices of the variants among the first `n` values, in order.
pub open spec fn primaries(vs: Seq<EnumValueModel>, n: int) -> Seq<usize>
    decreases n,
{
    if n <= 0 || n > vs.len() {
        seq![]
    } else if role_spec(vs, n - 1) == ValueRole::Primary {
        primaries(vs, n - 1).push((n - 1) as usize)
    } else {
        primaries(vs, n - 1)
    }
}

/// Everything the generated enum is built from.
pub struct EnumLayout {
    /// Each value's role, in declaration order.
    pub roles: Vec<ValueRole>,
    /// The value `Default` returns: the first declared one; none for an
    /// enum without values.
    pub default_index: Option<usize>,
    /// The `from_i32` arms: a variant's number and its index.
    pub from_i32: Vec<(i32, usize)>,
    /// The `from_proto_name` arms: for each value in order, the variant its
    /// name resolves to (an alias's name resolves to its variant).
    pub name_targets: Vec<usize>,
    /// The variants, in order: `Enumeration::values()` and the
    /// `proto_name` arms.
    pub values: Vec<usize>,
}

/// [`EnumLayout`] over sequences.
pub struct EnumLayoutModel {
    pub roles: Seq<ValueRole>,
    pub default_index: Option<usize>,
    pub from_i32: Seq<(i32, usize)>,
    pub name_targets: Seq<usize>,
    pub values: Seq<usize>,
}

impl View for EnumLayout {
    type V = EnumLayoutModel;

    open spec fn view(&self) -> EnumLayoutModel {
        EnumLayoutModel {
            roles: self.roles@,
            default_index: self.default_index,
            from_i32: self.from_i32@,
            name_targets: self.name_targets@,
            values: self.values@,
        }
    }
}

/// The layout of an enum whose values all have a name and a number.
pub open spec fn enum_layout_spec(vs: Seq<EnumValueModel>) -> EnumLayoutModel {
    let ps = primaries(vs, vs.len() as int);
    EnumLayoutModel {
        roles: Seq::new(vs.len(), |i: int| role_spec(vs, i)),
        default_index: if vs.len() > 0 { Some(0usize) } else { None },
        from_i32: Seq::new(ps.len(), |k: int| (vs[ps[k] as int].number->0, ps[k])),
        name_targets: Seq::new(vs.len(), |i: int| primary_of(vs, i) as usize),
        values: ps,
    }
}

/// The layout of the enum with `values`: the role of each value, the
/// first value as `Default`, a `from_i32` arm per variant, a name arm per
/// value leading to its variant, and the variants as `values()`; an error
/// naming the first missing name or number.
pub fn enum_layout(values: &Vec<EnumValueDescriptorProto>) -> (r: Result<EnumLayout, CodeGenError>)
    ensures
        r is Ok <==> missing_field(value_models(values@), values@.len() as int) is None,
        r matches Err(e) ==> e matches CodeGenError::MissingField(f) && Some(f@) == missing_field(
            value_models(values@),
            values@.len() as int,
        ),
        r matches Ok(l) ==> l@ == enum_layout_spec(value_models(values@)),
{
    let roles = match value_roles(values) {
        Ok(r) => r,
        Err(e) => return Err(e),
    };
    let ghost vs = value_models(values@);
    let mut from_i32: Vec<(i32, usize)> = Vec::new();
    let mut name_targets: Vec<usize> = Vec::new();
    let mut prims: Vec<usize> = Vec::new();
    let mut i: usize = 0;
    while i < roles.len()
        invariant
            vs == value_models(values@),
            missing_field(vs, vs.len() as int) is None,
            roles@.len() == values@.len(),
            forall|k: int| 0 <= k < values@.len() ==> #[trigger] roles@[k] == role_spec(vs, k),
            i <= roles@.len(),
            prims@ == primaries(vs, i as int),
            from_i32@ == Seq::new(prims@.len(), |k: int| (vs[prims@[k] as int].number->0, prims@[k])),
            name_targets@ == Seq::new(i as nat, |k: int| primary_of(vs, k) as usize),
        decreases roles@.len() - i,
    {
        proof {
            lemma_no_missing_prefix(vs, i as int + 1, vs.len() as int);
        }
        let role = roles[i];
        match role {
            ValueRole::Primary => {
                assert(vs[i as int] == values@[i as int].model());
                let n: i32 = match values[i].number {
                    Some(n) => n,
                    None => 0,
                };
                from_i32.push((n, i));
                prims.push(i);
                name_targets.push(i);
            },
            ValueRole::Alias(p) => {
                name_targets.push(p);
            },
        }
        proof {
            assert(from_i32@ =~= Seq::new(prims@.len(), |k: int| (vs[prims@[k] as int].number->0, prims@[k])));
            assert(name_targets@ =~= Seq::new(i as nat + 1, |k: int| primary_of(vs, k) as usize));
        }
        i = i + 1;
    }
    let default_index = if values.len() > 0 { Some(0usize) } else { None };
    let l = EnumLayout { roles, default_index, from_i32, name_targets, values: prims };
    proof {
        assert(l.roles@ =~= Seq::new(vs.len(), |k: int| role_spec(vs, k)));
    }
    Ok(l)
}

proof fn lemma_no_missing_prefix(vs: Seq<EnumValueModel>, m: int, n: int)
    requires
        0 <= m <= n <= vs.len(),
        missing_field(vs, n) is None,
    ensures
        missing_field(vs, m) is None,
        m > 0 ==> vs[m - 1].number is Some && vs[m - 1].name is Some,
{
    if missing_field(vs, m) is Some {
        lemma_missing_field_stays(vs, m, n);
    }
}

proof fn lemma_primaries(vs: Seq<EnumValueModel>, n: int)
    requires
        0 <= n <= vs.len(),
        vs.len() <= usize::MAX,
    ensures
        forall|k: int| 0 <= k < primaries(vs, n).len() ==> (#[trigger] primaries(vs, n)[k]) < n
            && role_spec(vs, primaries(vs, n)[k] as int) == ValueRole::Primary,
        forall|i: int| 0 <= i < n && role_spec(vs, i) == ValueRole::Primary ==> #[trigger] primaries(vs, n).contains(i as usize),
    decreases n,
{
    if n > 0 {
        lemma_primaries(vs, n - 1);
        let prev = primaries(vs, n - 1);
        if role_spec(vs, n - 1) == ValueRole::Primary {
            let cur = prev.push((n - 1) as usize);
            assert forall|i: int| 0 <= i < n && role_spec(vs, i) == ValueRole::Primary implies #[trigger] cur.contains(i as usize) by {
                if i < n - 1 {
                    assert(prev.contains(i as usize));
                    let k = choose|k: int| 0 <= k < prev.len() && prev[k] == i as usize;
                    assert(cur[k] == prev[k]);
                } else {
                    assert(cur[prev.len() as int] == i as usize);
                }
            }
        }
    }
}

/// The generated enum's surface is the protobuf one: `Default` is the first
/// declared value, which is a variant; each `from_i32` arm maps a number to
/// the first value declared with it, so every declared number has an arm;
/// a value's name resolves to that first value (an alias's name to its
/// variant); and `values()` lists exactly the variants, in declaration
/// order, leaving the aliases out.
pub proof fn law_enum_layout(vs: Seq<EnumValueModel>)
    requires
        missing_field(vs, vs.len() as int) is None,
        vs.len() <= usize::MAX,
    ensures
        ({
            let l = enum_layout_spec(vs);
            &&& vs.len() > 0 ==> l.default_index == Some(0usize) && role_spec(vs, 0) == ValueRole::Primary
            &&& forall|k: int| 0 <= k < l.from_i32.len() ==> {
                let (n, idx) = #[trigger] l.from_i32[k];
                &&& idx < vs.len()
                &&& role_spec(vs, idx as int) == ValueRole::Primary
                &&& vs[idx as int].number == Some(n)
                &&& forall|m: int| 0 <= m < idx ==> vs[m].number != Some(n)
            }
            &&& forall|i: int| 0 <= i < vs.len() ==> l.from_i32.contains((vs[i].number->0, #[trigger] primary_of(vs, i) as usize))
            &&& forall|i: int| 0 <= i < vs.len() ==> {
                let p = #[trigger] l.name_targets[i] as int;
                &&& p <= i
                &&& role_spec(vs, p) == ValueRole::Primary
                &&& vs[p].number == vs[i].number
                &&& forall|m: int| 0 <= m < p ==> vs[m].number != vs[i].number
            }
            &&& forall|k: int| 0 <= k < l.values.len() ==> role_spec(vs, #[trigger] l.values[k] as int) == ValueRole::Primary
            &&& forall|i: int| 0 <= i < vs.len() && role_spec(vs, i) == ValueRole::Primary ==> #[trigger] l.values.contains(i as usize)
        }),
{
    let l = enum_layout_spec(vs);
    let ps = primaries(vs, vs.len() as int);
    lemma_primaries(vs, vs.len() as int);
    if vs.len() > 0 {
        lemma_first_numbered(vs, vs[0].number, 0);
    }
    assert forall|k: int| 0 <= k < l.from_i32.len() implies {
        let (n, idx) = #[trigger] l.from_i32[k];
        &&& idx < vs.len()
        &&& role_spec(vs, idx as int) == ValueRole::Primary
        &&& vs[idx as int].number == Some(n)
        &&& forall|m: int| 0 <= m < idx ==> vs[m].number != Some(n)
    } by {
        let idx = ps[k] as int;
        assert(role_spec(vs, idx) == ValueRole::Primary);
        lemma_no_missing_prefix(vs, idx + 1, vs.len() as int);
        lemma_first_numbered(vs, vs[idx].number, idx);
    }
    assert forall|i: int| 0 <= i < vs.len() implies {
        let p = #[trigger] l.name_targets[i] as int;
        &&& p <= i
        &&& role_spec(vs, p) == ValueRole::Primary
        &&& vs[p].number == vs[i].number
        &&& forall|m: int| 0 <= m < p ==> vs[m].number != vs[i].number
    } by {
        lemma_alias_target(vs, i);
        lemma_first_numbered(vs, vs[i].number, i);
        let p = primary_of(vs, i);
        lemma_first_numbered(vs, vs[p].number, p);
        assert((p as usize) as int == p);
    }
    assert forall|i: int| 0 <= i < vs.len() implies l.from_i32.contains((vs[i].number->0, #[trigger] primary_of(vs, i) as usize)) by {
        lemma_alias_target(vs, i);
        let p = primary_of(vs, i);
        assert((p as usize) as int == p);
        assert(ps.contains(p as usize));
        let k = choose|k: int| 0 <= k < ps.len() && ps[k] == p as usize;
        assert(l.from_i32[k] == (vs[i].number->0, p as usize));
    }
}

} // verus!
