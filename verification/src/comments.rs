//! Source comment extraction from protobuf descriptors.
//!
//! Protobuf stores source comments in `SourceCodeInfo`, indexed by a *path*
//! of field numbers and repeated-field indices from the `FileDescriptorProto`
//! root to a descriptor element. This module turns them into a map keyed by
//! the element's dotted fully-qualified name (no leading dot), e.g.
//! `"example.v1.Person"` or `"example.v1.Person.name"`, so call sites look
//! comments up by the FQN they already have.

use vstd::prelude::*;
use crate::descriptor::{
    DescriptorProto, EnumDescriptorProto, EnumModel, EnumValueModel, FileDescriptorProto,
    FileModel, Location, LocationModel, MessageModel, opt_text,
};
use crate::sanitize::join;
use crate::string_map::StringMap;
use crate::text::{
    chars_of, extend_lit, extend_slice, leading_count, push_chars, push_str, skip_white_back,
    trailing_white, trim_end,
};

verus! {

// Descriptor field numbers (from google/protobuf/descriptor.proto).
/// `FileDescriptorProto.message_type`.
pub const FILE_MESSAGE_TYPE: i32 = 4;
/// `FileDescriptorProto.enum_type`.
pub const FILE_ENUM_TYPE: i32 = 5;
/// `DescriptorProto.field`.
pub const MSG_FIELD: i32 = 2;
/// `DescriptorProto.nested_type`.
pub const MSG_NESTED_TYPE: i32 = 3;
/// `DescriptorProto.enum_type`.
pub const MSG_ENUM_TYPE: i32 = 4;
/// `DescriptorProto.oneof_decl`.
pub const MSG_ONEOF_DECL: i32 = 8;
/// `EnumDescriptorProto.value`.
pub const ENUM_VALUE: i32 = 2;

// ── Formatting one location ─────────────────────────────────────────────────

/// One comment part: leading newlines and trailing whitespace removed.
pub open spec fn comment_part(c: Seq<char>) -> Seq<char> {
    trim_end(c.skip(leading_count(c, '\n') as int))
}

/// The non-empty parts of the detached comments, in order.
pub open spec fn detached_parts(ds: Seq<Seq<char>>) -> Seq<Seq<char>>
    decreases ds.len(),
{
    if ds.len() == 0 {
        seq![]
    } else {
        let rest = detached_parts(ds.drop_last());
        let p = comment_part(ds.last());
        if p.len() > 0 {
            rest.push(p)
        } else {
            rest
        }
    }
}

pub open spec fn optional_part(c: Option<Seq<char>>) -> Seq<Seq<char>> {
    match c {
        Some(t) => if comment_part(t).len() > 0 {
            seq![comment_part(t)]
        } else {
            seq![]
        },
        None => seq![],
    }
}

/// The non-empty parts of a location: detached, leading, trailing.
pub open spec fn location_parts(loc: LocationModel) -> Seq<Seq<char>> {
    detached_parts(loc.detached) + optional_part(loc.leading) + optional_part(loc.trailing)
}

/// The doc text of a location: its parts joined by a blank line, or `None`
/// when it has none.
pub open spec fn format_comment_spec(loc: LocationModel) -> Option<Seq<char>> {
    let parts = location_parts(loc);
    if parts.len() == 0 {
        None
    } else {
        Some(join(parts, "\n\n"@))
    }
}

/// The comments a location holds, in order: detached, leading, trailing.
pub open spec fn location_comments(loc: LocationModel) -> Seq<Seq<char>> {
    loc.detached + match loc.leading {
        Some(t) => seq![t],
        None => seq![],
    } + match loc.trailing {
        Some(t) => seq![t],
        None => seq![],
    }
}

/// Trimming one comment, as a function value.
pub open spec fn part_of() -> spec_fn(Seq<char>) -> Seq<char> {
    |c: Seq<char>| comment_part(c)
}

/// Whether a trimmed part is kept, as a function value.
pub open spec fn kept_part() -> spec_fn(Seq<char>) -> bool {
    |p: Seq<char>| p.len() > 0
}

proof fn lemma_detached_parts_filter(ds: Seq<Seq<char>>)
    ensures
        detached_parts(ds) == ds.map_values(part_of()).filter(kept_part()),
    decreases ds.len(),
{
    let mapped = ds.map_values(part_of());
    reveal(Seq::filter);
    if ds.len() == 0 {
        assert(mapped =~= Seq::<Seq<char>>::empty());
    } else {
        lemma_detached_parts_filter(ds.drop_last());
        assert(mapped.drop_last() =~= ds.drop_last().map_values(part_of()));
        assert(mapped.last() == comment_part(ds.last()));
    }
}

proof fn lemma_optional_part_filter(c: Option<Seq<char>>)
    ensures
        optional_part(c) == (match c {
            Some(t) => seq![t],
            None => seq![],
        }).map_values(part_of()).filter(kept_part()),
{
    let one: Seq<Seq<char>> = match c {
        Some(t) => seq![t],
        None => seq![],
    };
    let mapped = one.map_values(part_of());
    reveal_with_fuel(Seq::filter, 2);
    if let Some(t) = c {
        assert(mapped.drop_last() =~= Seq::<Seq<char>>::empty());
        assert(mapped.last() == comment_part(t));
    } else {
        assert(mapped =~= Seq::<Seq<char>>::empty());
    }
}

/// What `format_comment` gives, stated over the comments themselves: trim
/// each comment of the location in order, drop the empty ones, and join
/// what is left with a blank line; `None` when nothing is left.
pub proof fn law_format_comment_parts(loc: LocationModel)
    ensures
        ({
            let parts = location_comments(loc).map_values(part_of()).filter(kept_part());
            format_comment_spec(loc) == if parts.len() == 0 {
                None
            } else {
                Some(join(parts, "\n\n"@))
            }
        }),
{
    let l: Seq<Seq<char>> = match loc.leading {
        Some(t) => seq![t],
        None => seq![],
    };
    let t: Seq<Seq<char>> = match loc.trailing {
        Some(x) => seq![x],
        None => seq![],
    };
    lemma_detached_parts_filter(loc.detached);
    lemma_optional_part_filter(loc.leading);
    lemma_optional_part_filter(loc.trailing);
    let f = part_of();
    assert((loc.detached + l + t).map_values(f) =~= loc.detached.map_values(f) + l.map_values(f) + t.map_values(f));
    Seq::filter_distributes_over_add(loc.detached.map_values(f) + l.map_values(f), t.map_values(f), kept_part());
    Seq::filter_distributes_over_add(loc.detached.map_values(f), l.map_values(f), kept_part());
    assert(location_comments(loc) == loc.detached + l + t);
}

fn comment_part_exec(c: &str) -> (r: Vec<char>)
    ensures
        r@ == comment_part(c@),
{
    let v = chars_of(c);
    let mut i: usize = 0;
    assert(v@.skip(0) =~= v@);
    while i < v.len() && v[i] == '\n'
        invariant
            i <= v@.len(),
            leading_count(v@, '\n') == i + leading_count(v@.skip(i as int), '\n'),
        decreases v@.len() - i,
    {
        assert(v@.skip(i as int).drop_first() =~= v@.skip(i + 1));
        i = i + 1;
    }
    assert(leading_count(v@.skip(i as int), '\n') == 0);
    let e = skip_white_back(v.as_slice(), i, v.len());
    assert(v@.skip(i as int) =~= v@.subrange(i as int, v@.len() as int));
    let r = crate::text::slice_vec(v.as_slice(), i, e);
    assert(r@ =~= trim_end(v@.skip(i as int)));
    r
}

/// Format a `SourceCodeInfo.Location` into doc-comment text: the leading
/// detached comments, the leading comment and the trailing comment, each
/// stripped of leading newlines and trailing whitespace, empty ones dropped,
/// joined with a blank line. `None` when no comment is present. Leading
/// spaces of the first line are kept so indented code blocks survive.
pub fn format_comment(location: &Location) -> (r: Option<String>)
    ensures
        opt_text(r) == format_comment_spec(location.model()),
{
    let ghost loc = location.model();
    let mut parts: Vec<Vec<char>> = Vec::new();
    let mut i: usize = 0;
    while i < location.leading_detached_comments.len()
        invariant
            loc == location.model(),
            i <= location.leading_detached_comments@.len(),
            crate::sanitize::seq_views(parts@) == detached_parts(loc.detached.take(i as int)),
        decreases location.leading_detached_comments@.len() - i,
    {
        let ghost prev = crate::sanitize::seq_views(parts@);
        let p = comment_part_exec(location.leading_detached_comments[i].as_str());
        assert(loc.detached.take(i + 1).drop_last() =~= loc.detached.take(i as int));
        if p.len() > 0 {
            parts.push(p);
            assert(crate::sanitize::seq_views(parts@) =~= prev.push(p@));
        }
        i = i + 1;
    }
    assert(loc.detached.take(i as int) =~= loc.detached);
    let ghost d = crate::sanitize::seq_views(parts@);
    match &location.leading_comments {
        Some(leading) => {
            let p = comment_part_exec(leading.as_str());
            if p.len() > 0 {
                parts.push(p);
                assert(crate::sanitize::seq_views(parts@) =~= d + optional_part(loc.leading));
            } else {
                assert(crate::sanitize::seq_views(parts@) =~= d + optional_part(loc.leading));
            }
        },
        None => {
            assert(crate::sanitize::seq_views(parts@) =~= d + optional_part(loc.leading));
        },
    }
    let ghost dl = crate::sanitize::seq_views(parts@);
    match &location.trailing_comments {
        Some(trailing) => {
            let p = comment_part_exec(trailing.as_str());
            if p.len() > 0 {
                parts.push(p);
                assert(crate::sanitize::seq_views(parts@) =~= dl + optional_part(loc.trailing));
            } else {
                assert(crate::sanitize::seq_views(parts@) =~= dl + optional_part(loc.trailing));
            }
        },
        None => {
            assert(crate::sanitize::seq_views(parts@) =~= dl + optional_part(loc.trailing));
        },
    }
    if parts.len() == 0 {
        return None;
    }
    let mut out = String::new();
    crate::doc_lines::join_into(&mut out, &parts, "\n\n");
    Some(out)
}

} // verus!

verus! {

// ── The path map ────────────────────────────────────────────────────────────

/// The path-keyed comment map of the locations, later locations winning.
pub open spec fn path_map_from(locs: Seq<LocationModel>) -> Map<Seq<i32>, Seq<char>>
    decreases locs.len(),
{
    if locs.len() == 0 {
        Map::empty()
    } else {
        let m = path_map_from(locs.drop_last());
        match format_comment_spec(locs.last()) {
            Some(c) => m.insert(locs.last().path, c),
            None => m,
        }
    }
}

/// The path-keyed comment map of a file.
pub open spec fn path_map_spec(f: FileModel) -> Map<Seq<i32>, Seq<char>> {
    match f.locations {
        Some(ls) => path_map_from(ls),
        None => Map::empty(),
    }
}

/// Build the raw path-based comment map from `SourceCodeInfo`.
fn build_path_map(file: &FileDescriptorProto) -> (m: crate::string_map::PathMap)
    ensures
        m@ == path_map_spec(file.model()),
{
    let mut map = crate::string_map::PathMap::new();
    let sci = match &file.source_code_info {
        Some(sci) => sci,
        None => return map,
    };
    let ghost locs = file.model().locations->0;
    let mut i: usize = 0;
    while i < sci.location.len()
        invariant
            locs == Seq::new(sci.location@.len(), |j: int| sci.location@[j].model()),
            i <= sci.location@.len(),
            map@ == path_map_from(locs.take(i as int)),
        decreases sci.location@.len() - i,
    {
        let location = &sci.location[i];
        assert(locs.take(i + 1).drop_last() =~= locs.take(i as int));
        assert(locs.take(i + 1).last() == location.model());
        if let Some(comment) = format_comment(location) {
            let p = location.path.clone();
            map.insert_path(p, comment);
        }
        i = i + 1;
    }
    assert(locs.take(i as int) =~= locs);
    map
}

// ── FQN collection ──────────────────────────────────────────────────────────

/// A name, or the empty string for an absent one.
pub open spec fn name_text(o: Option<Seq<char>>) -> Seq<char> {
    match o {
        Some(n) => n,
        None => seq![],
    }
}

/// Join a package and a name into an FQN (no leading dot).
pub open spec fn fqn_join_spec(package: Seq<char>, name: Seq<char>) -> Seq<char> {
    if package.len() == 0 {
        name
    } else {
        package + "."@ + name
    }
}

/// The FQN of a child element.
pub open spec fn child_fqn(fqn: Seq<char>, name: Option<Seq<char>>) -> Seq<char> {
    fqn + "."@ + name_text(name)
}

/// `acc` with the comment at `path`, if any, recorded under `fqn`.
pub open spec fn with_comment(pm: Map<Seq<i32>, Seq<char>>, path: Seq<i32>, fqn: Seq<char>, acc: Map<Seq<char>, Seq<char>>) -> Map<Seq<char>, Seq<char>> {
    if pm.contains_key(path) {
        acc.insert(fqn, pm[path])
    } else {
        acc
    }
}

/// Comments of the first `n` leaf children (fields, oneofs or enum values,
/// by `tag`) of the element at `path`.
pub open spec fn leaf_fold(pm: Map<Seq<i32>, Seq<char>>, path: Seq<i32>, fqn: Seq<char>, tag: i32, names: Seq<Option<Seq<char>>>, n: int, acc: Map<Seq<char>, Seq<char>>) -> Map<Seq<char>, Seq<char>>
    decreases n,
{
    if n <= 0 || n > names.len() {
        acc
    } else {
        with_comment(
            pm,
            path + seq![tag, (n - 1) as i32],
            child_fqn(fqn, names[n - 1]),
            leaf_fold(pm, path, fqn, tag, names, n - 1, acc),
        )
    }
}

pub open spec fn value_names(vs: Seq<EnumValueModel>) -> Seq<Option<Seq<char>>> {
    Seq::new(vs.len(), |i: int| vs[i].name)
}

/// Comments of an enum and its values.
pub open spec fn enum_comments(pm: Map<Seq<i32>, Seq<char>>, path: Seq<i32>, fqn: Seq<char>, e: EnumModel, acc: Map<Seq<char>, Seq<char>>) -> Map<Seq<char>, Seq<char>> {
    leaf_fold(pm, path, fqn, ENUM_VALUE, value_names(e.values), e.values.len() as int, with_comment(pm, path, fqn, acc))
}

/// Comments of the first `n` nested enums of the message at `path`.
pub open spec fn enum_fold(pm: Map<Seq<i32>, Seq<char>>, path: Seq<i32>, fqn: Seq<char>, es: Seq<EnumModel>, n: int, acc: Map<Seq<char>, Seq<char>>) -> Map<Seq<char>, Seq<char>>
    decreases n,
{
    if n <= 0 || n > es.len() {
        acc
    } else {
        enum_comments(
            pm,
            path + seq![MSG_ENUM_TYPE, (n - 1) as i32],
            child_fqn(fqn, es[n - 1].name),
            es[n - 1],
            enum_fold(pm, path, fqn, es, n - 1, acc),
        )
    }
}

/// Comments of a message and, recursively, all its children.
pub open spec fn msg_comments(pm: Map<Seq<i32>, Seq<char>>, path: Seq<i32>, fqn: Seq<char>, m: MessageModel, acc: Map<Seq<char>, Seq<char>>) -> Map<Seq<char>, Seq<char>>
    decreases m, 0int,
{
    let a1 = with_comment(pm, path, fqn, acc);
    let a2 = leaf_fold(pm, path, fqn, MSG_FIELD, Seq::new(m.fields.len(), |i: int| m.fields[i].name), m.fields.len() as int, a1);
    let a3 = leaf_fold(pm, path, fqn, MSG_ONEOF_DECL, m.oneofs, m.oneofs.len() as int, a2);
    let a4 = enum_fold(pm, path, fqn, m.enums, m.enums.len() as int, a3);
    nested_fold(pm, path, fqn, m.nested, m.nested.len() as int, a4)
}

/// Comments of the first `n` nested messages of the message at `path`.
pub open spec fn nested_fold(pm: Map<Seq<i32>, Seq<char>>, path: Seq<i32>, fqn: Seq<char>, ms: Seq<MessageModel>, n: int, acc: Map<Seq<char>, Seq<char>>) -> Map<Seq<char>, Seq<char>>
    decreases ms, n,
{
    if n <= 0 || n > ms.len() {
        acc
    } else {
        msg_comments(
            pm,
            path + seq![MSG_NESTED_TYPE, (n - 1) as i32],
            child_fqn(fqn, ms[n - 1].name),
            ms[n - 1],
            nested_fold(pm, path, fqn, ms, n - 1, acc),
        )
    }
}

/// Comments of the first `n` top-level enums.
pub open spec fn top_enum_fold(pm: Map<Seq<i32>, Seq<char>>, pkg: Seq<char>, es: Seq<EnumModel>, n: int, acc: Map<Seq<char>, Seq<char>>) -> Map<Seq<char>, Seq<char>>
    decreases n,
{
    if n <= 0 || n > es.len() {
        acc
    } else {
        enum_comments(
            pm,
            seq![FILE_ENUM_TYPE, (n - 1) as i32],
            fqn_join_spec(pkg, name_text(es[n - 1].name)),
            es[n - 1],
            top_enum_fold(pm, pkg, es, n - 1, acc),
        )
    }
}

/// Comments of the first `n` top-level messages.
pub open spec fn top_msg_fold(pm: Map<Seq<i32>, Seq<char>>, pkg: Seq<char>, ms: Seq<MessageModel>, n: int, acc: Map<Seq<char>, Seq<char>>) -> Map<Seq<char>, Seq<char>>
    decreases n,
{
    if n <= 0 || n > ms.len() {
        acc
    } else {
        msg_comments(
            pm,
            seq![FILE_MESSAGE_TYPE, (n - 1) as i32],
            fqn_join_spec(pkg, name_text(ms[n - 1].name)),
            ms[n - 1],
            top_msg_fold(pm, pkg, ms, n - 1, acc),
        )
    }
}

/// The FQN-keyed comments of a file: top-level enums (with their values)
/// first, then top-level messages with everything nested in them.
pub open spec fn fqn_comments_spec(f: FileModel) -> Map<Seq<char>, Seq<char>> {
    let pm = path_map_spec(f);
    if pm.dom().len() == 0 {
        Map::empty()
    } else {
        let pkg = name_text(f.package);
        top_msg_fold(pm, pkg, f.messages, f.messages.len() as int, top_enum_fold(pm, pkg, f.enums, f.enums.len() as int, Map::empty()))
    }
}

} // verus!

verus! {

fn child_key(fqn: &Vec<char>, name: &Option<String>) -> (k: Vec<char>)
    ensures
        k@ == child_fqn(fqn@, opt_text(*name)),
{
    let mut k: Vec<char> = Vec::new();
    extend_slice(&mut k, fqn.as_slice(), 0, fqn.len());
    extend_lit(&mut k, ".");
    match name {
        Some(n) => {
            let c = chars_of(n.as_str());
            extend_slice(&mut k, c.as_slice(), 0, c.len());
            assert(c@.subrange(0, c@.len() as int) =~= c@);
        },
        None => {},
    }
    assert(fqn@.subrange(0, fqn@.len() as int) =~= fqn@);
    assert(k@ =~= child_fqn(fqn@, opt_text(*name)));
    k
}

fn child_path(path: &Vec<i32>, tag: i32, i: usize) -> (p: Vec<i32>)
    ensures
        p@ == path@ + seq![tag, i as i32],
{
    let mut p = path.clone();
    p.push(tag);
    p.push(i as i32);
    assert(p@ =~= path@ + seq![tag, i as i32]);
    p
}

fn record(path_map: &crate::string_map::PathMap, path: &Vec<i32>, fqn: Vec<char>, out: &mut StringMap)
    ensures
        final(out)@ == with_comment(path_map@, path@, fqn@, old(out)@),
{
    if let Some(comment) = path_map.get_path(path) {
        out.insert_chars(fqn, comment.clone());
    }
}

/// Collect comments for an enum and its values.
fn collect_enum_comments(
    path_map: &crate::string_map::PathMap,
    enum_path: &Vec<i32>,
    enum_fqn: &Vec<char>,
    enum_desc: &EnumDescriptorProto,
    out: &mut StringMap,
)
    ensures
        final(out)@ == enum_comments(path_map@, enum_path@, enum_fqn@, enum_desc.model(), old(out)@),
{
    let fqn = enum_fqn.clone();
    record(path_map, enum_path, fqn, out);
    let ghost a1 = out@;
    let ghost names = value_names(enum_desc.model().values);
    let mut i: usize = 0;
    while i < enum_desc.value.len()
        invariant
            names == value_names(enum_desc.model().values),
            names.len() == enum_desc.value@.len(),
            i <= enum_desc.value@.len(),
            out@ == leaf_fold(path_map@, enum_path@, enum_fqn@, ENUM_VALUE, names, i as int, a1),
        decreases enum_desc.value@.len() - i,
    {
        let value = &enum_desc.value[i];
        assert(names[i as int] == opt_text(value.name));
        let k = child_key(enum_fqn, &value.name);
        let p = child_path(enum_path, ENUM_VALUE, i);
        record(path_map, &p, k, out);
        i = i + 1;
    }
}

/// Recursively collect comments for a message and all its children.
fn collect_message_comments(
    path_map: &crate::string_map::PathMap,
    msg_path: &Vec<i32>,
    msg_fqn: &Vec<char>,
    msg: &DescriptorProto,
    out: &mut StringMap,
)
    ensures
        final(out)@ == msg_comments(path_map@, msg_path@, msg_fqn@, msg.model(), old(out)@),
    decreases msg,
{
    let ghost m = msg.model();
    let ghost pm = path_map@;
    let fqn = msg_fqn.clone();
    record(path_map, msg_path, fqn, out);
    let ghost a1 = out@;
    let ghost fnames = Seq::new(m.fields.len(), |i: int| m.fields[i].name);
    let mut i: usize = 0;
    while i < msg.field.len()
        invariant
            m == msg.model(),
            pm == path_map@,
            fnames == Seq::new(m.fields.len(), |i: int| m.fields[i].name),
            i <= msg.field@.len(),
            out@ == leaf_fold(pm, msg_path@, msg_fqn@, MSG_FIELD, fnames, i as int, a1),
        decreases msg.field@.len() - i,
    {
        let field = &msg.field[i];
        assert(fnames[i as int] == opt_text(field.name));
        let k = child_key(msg_fqn, &field.name);
        let p = child_path(msg_path, MSG_FIELD, i);
        record(path_map, &p, k, out);
        i = i + 1;
    }
    let ghost a2 = out@;
    let mut i: usize = 0;
    while i < msg.oneof_decl.len()
        invariant
            m == msg.model(),
            pm == path_map@,
            i <= msg.oneof_decl@.len(),
            out@ == leaf_fold(pm, msg_path@, msg_fqn@, MSG_ONEOF_DECL, m.oneofs, i as int, a2),
        decreases msg.oneof_decl@.len() - i,
    {
        let oneof = &msg.oneof_decl[i];
        let k = child_key(msg_fqn, &oneof.name);
        let p = child_path(msg_path, MSG_ONEOF_DECL, i);
        record(path_map, &p, k, out);
        i = i + 1;
    }
    let ghost a3 = out@;
    let mut i: usize = 0;
    while i < msg.enum_type.len()
        invariant
            m == msg.model(),
            pm == path_map@,
            i <= msg.enum_type@.len(),
            out@ == enum_fold(pm, msg_path@, msg_fqn@, m.enums, i as int, a3),
        decreases msg.enum_type@.len() - i,
    {
        let e = &msg.enum_type[i];
        let k = child_key(msg_fqn, &e.name);
        let p = child_path(msg_path, MSG_ENUM_TYPE, i);
        collect_enum_comments(path_map, &p, &k, e, out);
        i = i + 1;
    }
    let ghost a4 = out@;
    let mut i: usize = 0;
    while i < msg.nested_type.len()
        invariant
            m == msg.model(),
            pm == path_map@,
            i <= msg.nested_type@.len(),
            out@ == nested_fold(pm, msg_path@, msg_fqn@, m.nested, i as int, a4),
        decreases msg.nested_type@.len() - i,
    {
        let nested = &msg.nested_type[i];
        assert(m.nested[i as int] == nested.model());
        let k = child_key(msg_fqn, &nested.name);
        let p = child_path(msg_path, MSG_NESTED_TYPE, i);
        assert(decreases_to!(msg => msg.nested_type@[i as int]));
        collect_message_comments(path_map, &p, &k, nested, out);
        i = i + 1;
    }
}

/// Join a package and a name into an FQN (no leading dot).
pub fn fqn_join(package: &str, name: &str) -> (r: String)
    ensures
        r@ == fqn_join_spec(package@, name@),
{
    let mut r = String::new();
    if package.unicode_len() == 0 {
        push_str(&mut r, name);
    } else {
        push_str(&mut r, package);
        push_str(&mut r, ".");
        push_str(&mut r, name);
    }
    r
}

/// Walk a file descriptor's `SourceCodeInfo` and produce the FQN-keyed
/// comment map: messages, fields, oneofs, enums and enum values, keyed by
/// dotted FQN without a leading dot.
pub fn fqn_comments(file: &FileDescriptorProto) -> (r: StringMap)
    ensures
        r@ == fqn_comments_spec(file.model()),
{
    let path_map = build_path_map(file);
    let mut result = StringMap::new();
    if path_map.is_empty() {
        return result;
    }
    let ghost f = file.model();
    let ghost pm = path_map@;
    let package: Vec<char> = match &file.package {
        Some(p) => chars_of(p.as_str()),
        None => Vec::new(),
    };
    assert(package@ == name_text(f.package));
    let mut i: usize = 0;
    while i < file.enum_type.len()
        invariant
            f == file.model(),
            pm == path_map@,
            package@ == name_text(f.package),
            i <= file.enum_type@.len(),
            result@ == top_enum_fold(pm, package@, f.enums, i as int, Map::empty()),
        decreases file.enum_type@.len() - i,
    {
        let e = &file.enum_type[i];
        let fqn = fqn_key(&package, &e.name);
        let mut path: Vec<i32> = Vec::new();
        path.push(FILE_ENUM_TYPE);
        path.push(i as i32);
        assert(path@ =~= seq![FILE_ENUM_TYPE, i as i32]);
        collect_enum_comments(&path_map, &path, &fqn, e, &mut result);
        i = i + 1;
    }
    let ghost a = result@;
    let mut i: usize = 0;
    while i < file.message_type.len()
        invariant
            f == file.model(),
            pm == path_map@,
            package@ == name_text(f.package),
            i <= file.message_type@.len(),
            result@ == top_msg_fold(pm, package@, f.messages, i as int, a),
        decreases file.message_type@.len() - i,
    {
        let msg = &file.message_type[i];
        let fqn = fqn_key(&package, &msg.name);
        let mut path: Vec<i32> = Vec::new();
        path.push(FILE_MESSAGE_TYPE);
        path.push(i as i32);
        assert(path@ =~= seq![FILE_MESSAGE_TYPE, i as i32]);
        collect_message_comments(&path_map, &path, &fqn, msg, &mut result);
        i = i + 1;
    }
    result
}

fn fqn_key(package: &Vec<char>, name: &Option<String>) -> (k: Vec<char>)
    ensures
        k@ == fqn_join_spec(package@, name_text(opt_text(*name))),
{
    let n: Vec<char> = match name {
        Some(n) => chars_of(n.as_str()),
        None => Vec::new(),
    };
    if package.len() == 0 {
        return n;
    }
    let mut k: Vec<char> = Vec::new();
    extend_slice(&mut k, package.as_slice(), 0, package.len());
    extend_lit(&mut k, ".");
    extend_slice(&mut k, n.as_slice(), 0, n.len());
    assert(package@.subrange(0, package@.len() as int) =~= package@);
    assert(n@.subrange(0, n@.len() as int) =~= n@);
    k
}

} // verus!

verus! {

// ── Laws of the comment maps ────────────────────────────────────────────────

/// The path map holds a path exactly when some location at that path has a
/// comment, and then the comment of the last such location.
pub proof fn law_path_map_last_wins(locs: Seq<LocationModel>, i: int)
    requires
        0 <= i < locs.len(),
        format_comment_spec(locs[i]) is Some,
        forall|j: int| i < j < locs.len() && #[trigger] locs[j].path == locs[i].path
            ==> format_comment_spec(locs[j]) is None,
    ensures
        path_map_from(locs).contains_key(locs[i].path),
        path_map_from(locs)[locs[i].path] == format_comment_spec(locs[i])->0,
    decreases locs.len(),
{
    if i < locs.len() - 1 {
        let d = locs.drop_last();
        assert forall|j: int| i < j < d.len() && #[trigger] d[j].path == d[i].path
            implies format_comment_spec(d[j]) is None by {
            assert(d[j] == locs[j]);
        }
        law_path_map_last_wins(d, i);
        assert(locs.last() == locs[locs.len() - 1]);
    }
}

/// A path with no commented location is not in the path map.
pub proof fn law_path_map_needs_comment(locs: Seq<LocationModel>, p: Seq<i32>)
    requires
        forall|j: int| 0 <= j < locs.len() && #[trigger] locs[j].path == p
            ==> format_comment_spec(locs[j]) is None,
    ensures
        !path_map_from(locs).contains_key(p),
    decreases locs.len(),
{
    if locs.len() > 0 {
        let d = locs.drop_last();
        assert forall|j: int| 0 <= j < d.len() && #[trigger] d[j].path == p
            implies format_comment_spec(d[j]) is None by {
            assert(d[j] == locs[j]);
        }
        law_path_map_needs_comment(d, p);
        assert(locs.last() == locs[locs.len() - 1]);
    }
}

proof fn lemma_path_map_from_finite(locs: Seq<LocationModel>)
    ensures
        path_map_from(locs).dom().finite(),
    decreases locs.len(),
{
    if locs.len() > 0 {
        lemma_path_map_from_finite(locs.drop_last());
    }
}

proof fn lemma_path_map_finite(f: FileModel)
    ensures
        path_map_spec(f).dom().finite(),
{
    if let Some(ls) = f.locations {
        lemma_path_map_from_finite(ls);
    }
}

proof fn lemma_with_comment(pm: Map<Seq<i32>, Seq<char>>, path: Seq<i32>, fqn: Seq<char>, acc: Map<Seq<char>, Seq<char>>)
    ensures
        forall|k: Seq<char>| #[trigger] acc.contains_key(k) ==> with_comment(pm, path, fqn, acc).contains_key(k),
        pm.contains_key(path) ==> with_comment(pm, path, fqn, acc).contains_key(fqn),
{
}

} // verus!

verus! {

// ── Which keys the FQN map has ──────────────────────────────────────────────

/// `(p, k)` is the path and FQN of one of the first `n` leaf children (by
/// `tag`) of the element at `path` named `fqn`.
pub open spec fn leaf_elem(path: Seq<i32>, fqn: Seq<char>, tag: i32, names: Seq<Option<Seq<char>>>, n: int, p: Seq<i32>, k: Seq<char>) -> bool
    decreases n,
{
    if n <= 0 || n > names.len() {
        false
    } else {
        leaf_elem(path, fqn, tag, names, n - 1, p, k) || (p == path + seq![tag, (n - 1) as i32] && k == child_fqn(fqn, names[n - 1]))
    }
}

/// `(p, k)` is the path and FQN of the enum at `path` or of one of its values.
pub open spec fn enum_elem(path: Seq<i32>, fqn: Seq<char>, e: EnumModel, p: Seq<i32>, k: Seq<char>) -> bool {
    (p == path && k == fqn) || leaf_elem(path, fqn, ENUM_VALUE, value_names(e.values), e.values.len() as int, p, k)
}

/// The same, for the first `n` enums nested in the message at `path`.
pub open spec fn enums_elem(path: Seq<i32>, fqn: Seq<char>, es: Seq<EnumModel>, n: int, p: Seq<i32>, k: Seq<char>) -> bool
    decreases n,
{
    if n <= 0 || n > es.len() {
        false
    } else {
        enums_elem(path, fqn, es, n - 1, p, k) || enum_elem(path + seq![MSG_ENUM_TYPE, (n - 1) as i32], child_fqn(fqn, es[n - 1].name), es[n - 1], p, k)
    }
}

/// `(p, k)` is the path and FQN of the message at `path` or of anything
/// declared in it, at any depth.
pub open spec fn msg_elem(path: Seq<i32>, fqn: Seq<char>, m: MessageModel, p: Seq<i32>, k: Seq<char>) -> bool
    decreases m, 0int,
{
    ||| (p == path && k == fqn)
    ||| leaf_elem(path, fqn, MSG_FIELD, Seq::new(m.fields.len(), |i: int| m.fields[i].name), m.fields.len() as int, p, k)
    ||| leaf_elem(path, fqn, MSG_ONEOF_DECL, m.oneofs, m.oneofs.len() as int, p, k)
    ||| enums_elem(path, fqn, m.enums, m.enums.len() as int, p, k)
    ||| nested_elem(path, fqn, m.nested, m.nested.len() as int, p, k)
}

/// The same, for the first `n` messages nested in the message at `path`.
pub open spec fn nested_elem(path: Seq<i32>, fqn: Seq<char>, ms: Seq<MessageModel>, n: int, p: Seq<i32>, k: Seq<char>) -> bool
    decreases ms, n,
{
    if n <= 0 || n > ms.len() {
        false
    } else {
        nested_elem(path, fqn, ms, n - 1, p, k) || msg_elem(path + seq![MSG_NESTED_TYPE, (n - 1) as i32], child_fqn(fqn, ms[n - 1].name), ms[n - 1], p, k)
    }
}

/// The same, for the first `n` top-level enums.
pub open spec fn top_enums_elem(pkg: Seq<char>, es: Seq<EnumModel>, n: int, p: Seq<i32>, k: Seq<char>) -> bool
    decreases n,
{
    if n <= 0 || n > es.len() {
        false
    } else {
        top_enums_elem(pkg, es, n - 1, p, k) || enum_elem(seq![FILE_ENUM_TYPE, (n - 1) as i32], fqn_join_spec(pkg, name_text(es[n - 1].name)), es[n - 1], p, k)
    }
}

/// The same, for the first `n` top-level messages.
pub open spec fn top_msgs_elem(pkg: Seq<char>, ms: Seq<MessageModel>, n: int, p: Seq<i32>, k: Seq<char>) -> bool
    decreases n,
{
    if n <= 0 || n > ms.len() {
        false
    } else {
        top_msgs_elem(pkg, ms, n - 1, p, k) || msg_elem(seq![FILE_MESSAGE_TYPE, (n - 1) as i32], fqn_join_spec(pkg, name_text(ms[n - 1].name)), ms[n - 1], p, k)
    }
}

/// `(p, k)` is the path and FQN of a message, field, oneof, enum or enum
/// value declared in the file, at any depth.
pub open spec fn file_elem(f: FileModel, p: Seq<i32>, k: Seq<char>) -> bool {
    let pkg = name_text(f.package);
    top_enums_elem(pkg, f.enums, f.enums.len() as int, p, k) || top_msgs_elem(pkg, f.messages, f.messages.len() as int, p, k)
}

proof fn lemma_leaf_keys(pm: Map<Seq<i32>, Seq<char>>, path: Seq<i32>, fqn: Seq<char>, tag: i32, names: Seq<Option<Seq<char>>>, n: int, acc: Map<Seq<char>, Seq<char>>)
    ensures
        ({
            let r = leaf_fold(pm, path, fqn, tag, names, n, acc);
            &&& forall|k: Seq<char>| #[trigger] acc.contains_key(k) ==> r.contains_key(k)
            &&& forall|k: Seq<char>| #[trigger] r.contains_key(k) ==> (acc.contains_key(k) && r[k] == acc[k])
                || exists|p: Seq<i32>| pm.contains_key(p) && #[trigger] leaf_elem(path, fqn, tag, names, n, p, k) && r[k] == pm[p]
            &&& forall|p: Seq<i32>, k: Seq<char>| #[trigger] leaf_elem(path, fqn, tag, names, n, p, k) && pm.contains_key(p)
                ==> r.contains_key(k)
        }),
    decreases n,
{
    if 0 < n <= names.len() {
        let prev = leaf_fold(pm, path, fqn, tag, names, n - 1, acc);
        let r = leaf_fold(pm, path, fqn, tag, names, n, acc);
        let pp = path + seq![tag, (n - 1) as i32];
        let kk = child_fqn(fqn, names[n - 1]);
        lemma_leaf_keys(pm, path, fqn, tag, names, n - 1, acc);
        assert(r == with_comment(pm, pp, kk, prev));
        assert forall|k: Seq<char>| #[trigger] r.contains_key(k) implies (acc.contains_key(k) && r[k] == acc[k])
            || exists|p: Seq<i32>| pm.contains_key(p) && #[trigger] leaf_elem(path, fqn, tag, names, n, p, k) && r[k] == pm[p] by {
            if pm.contains_key(pp) && k == kk {
                assert(leaf_elem(path, fqn, tag, names, n, pp, k));
            } else {
                assert(prev.contains_key(k) && r[k] == prev[k]);
                if !(acc.contains_key(k) && prev[k] == acc[k]) {
                    let p = choose|p: Seq<i32>| pm.contains_key(p) && #[trigger] leaf_elem(path, fqn, tag, names, n - 1, p, k) && prev[k] == pm[p];
                    assert(leaf_elem(path, fqn, tag, names, n, p, k));
                }
            }
        }
        assert forall|p: Seq<i32>, k: Seq<char>| #[trigger] leaf_elem(path, fqn, tag, names, n, p, k) && pm.contains_key(p)
            implies r.contains_key(k) by {
            if leaf_elem(path, fqn, tag, names, n - 1, p, k) {
                assert(prev.contains_key(k));
            }
        }
    }
}

proof fn lemma_enum_keys(pm: Map<Seq<i32>, Seq<char>>, path: Seq<i32>, fqn: Seq<char>, e: EnumModel, acc: Map<Seq<char>, Seq<char>>)
    ensures
        ({
            let r = enum_comments(pm, path, fqn, e, acc);
            &&& forall|k: Seq<char>| #[trigger] acc.contains_key(k) ==> r.contains_key(k)
            &&& forall|k: Seq<char>| #[trigger] r.contains_key(k) ==> (acc.contains_key(k) && r[k] == acc[k])
                || exists|p: Seq<i32>| pm.contains_key(p) && #[trigger] enum_elem(path, fqn, e, p, k) && r[k] == pm[p]
            &&& forall|p: Seq<i32>, k: Seq<char>| #[trigger] enum_elem(path, fqn, e, p, k) && pm.contains_key(p)
                ==> r.contains_key(k)
        }),
{
    let a1 = with_comment(pm, path, fqn, acc);
    let names = value_names(e.values);
    let n = e.values.len() as int;
    let r = enum_comments(pm, path, fqn, e, acc);
    lemma_with_comment(pm, path, fqn, acc);
    lemma_leaf_keys(pm, path, fqn, ENUM_VALUE, names, n, a1);
    assert forall|k: Seq<char>| #[trigger] r.contains_key(k) implies (acc.contains_key(k) && r[k] == acc[k])
            || exists|p: Seq<i32>| pm.contains_key(p) && #[trigger] enum_elem(path, fqn, e, p, k) && r[k] == pm[p] by {
        if a1.contains_key(k) && r[k] == a1[k] {
            if !(acc.contains_key(k) && a1[k] == acc[k]) {
                assert(k == fqn && pm.contains_key(path));
                assert(enum_elem(path, fqn, e, path, k));
            }
        } else {
            let p = choose|p: Seq<i32>| pm.contains_key(p) && #[trigger] leaf_elem(path, fqn, ENUM_VALUE, names, n, p, k) && r[k] == pm[p];
            assert(enum_elem(path, fqn, e, p, k));
        }
    }
    assert forall|p: Seq<i32>, k: Seq<char>| #[trigger] enum_elem(path, fqn, e, p, k) && pm.contains_key(p)
        implies r.contains_key(k) by {
        if p == path && k == fqn {
            assert(a1.contains_key(k));
        } else {
            assert(leaf_elem(path, fqn, ENUM_VALUE, names, n, p, k));
        }
    }
}

proof fn lemma_enums_keys(pm: Map<Seq<i32>, Seq<char>>, path: Seq<i32>, fqn: Seq<char>, es: Seq<EnumModel>, n: int, acc: Map<Seq<char>, Seq<char>>)
    ensures
        ({
            let r = enum_fold(pm, path, fqn, es, n, acc);
            &&& forall|k: Seq<char>| #[trigger] acc.contains_key(k) ==> r.contains_key(k)
            &&& forall|k: Seq<char>| #[trigger] r.contains_key(k) ==> (acc.contains_key(k) && r[k] == acc[k])
                || exists|p: Seq<i32>| pm.contains_key(p) && #[trigger] enums_elem(path, fqn, es, n, p, k) && r[k] == pm[p]
            &&& forall|p: Seq<i32>, k: Seq<char>| #[trigger] enums_elem(path, fqn, es, n, p, k) && pm.contains_key(p)
                ==> r.contains_key(k)
        }),
    decreases n,
{
    if 0 < n <= es.len() {
        let prev = enum_fold(pm, path, fqn, es, n - 1, acc);
        let r = enum_fold(pm, path, fqn, es, n, acc);
        let pp = path + seq![MSG_ENUM_TYPE, (n - 1) as i32];
        let kk = child_fqn(fqn, es[n - 1].name);
        lemma_enums_keys(pm, path, fqn, es, n - 1, acc);
        lemma_enum_keys(pm, pp, kk, es[n - 1], prev);
        assert(r == enum_comments(pm, pp, kk, es[n - 1], prev));
        assert forall|k: Seq<char>| #[trigger] r.contains_key(k) implies (acc.contains_key(k) && r[k] == acc[k])
            || exists|p: Seq<i32>| pm.contains_key(p) && #[trigger] enums_elem(path, fqn, es, n, p, k) && r[k] == pm[p] by {
            if prev.contains_key(k) && r[k] == prev[k] {
                if !(acc.contains_key(k) && prev[k] == acc[k]) {
                    let p = choose|p: Seq<i32>| pm.contains_key(p) && #[trigger] enums_elem(path, fqn, es, n - 1, p, k) && prev[k] == pm[p];
                    assert(enums_elem(path, fqn, es, n, p, k));
                }
            } else {
                let p = choose|p: Seq<i32>| pm.contains_key(p) && #[trigger] enum_elem(pp, kk, es[n - 1], p, k) && r[k] == pm[p];
                assert(enums_elem(path, fqn, es, n, p, k));
            }
        }
        assert forall|p: Seq<i32>, k: Seq<char>| #[trigger] enums_elem(path, fqn, es, n, p, k) && pm.contains_key(p)
            implies r.contains_key(k) by {
            if enums_elem(path, fqn, es, n - 1, p, k) {
                assert(prev.contains_key(k));
            } else {
                assert(enum_elem(pp, kk, es[n - 1], p, k));
            }
        }
    }
}

proof fn lemma_msg_keys(pm: Map<Seq<i32>, Seq<char>>, path: Seq<i32>, fqn: Seq<char>, m: MessageModel, acc: Map<Seq<char>, Seq<char>>)
    ensures
        ({
            let r = msg_comments(pm, path, fqn, m, acc);
            &&& forall|k: Seq<char>| #[trigger] acc.contains_key(k) ==> r.contains_key(k)
            &&& forall|k: Seq<char>| #[trigger] r.contains_key(k) ==> (acc.contains_key(k) && r[k] == acc[k])
                || exists|p: Seq<i32>| pm.contains_key(p) && #[trigger] msg_elem(path, fqn, m, p, k) && r[k] == pm[p]
            &&& forall|p: Seq<i32>, k: Seq<char>| #[trigger] msg_elem(path, fqn, m, p, k) && pm.contains_key(p)
                ==> r.contains_key(k)
        }),
    decreases m, 0int,
{
    let fnames = Seq::new(m.fields.len(), |i: int| m.fields[i].name);
    let a1 = with_comment(pm, path, fqn, acc);
    let a2 = leaf_fold(pm, path, fqn, MSG_FIELD, fnames, m.fields.len() as int, a1);
    let a3 = leaf_fold(pm, path, fqn, MSG_ONEOF_DECL, m.oneofs, m.oneofs.len() as int, a2);
    let a4 = enum_fold(pm, path, fqn, m.enums, m.enums.len() as int, a3);
    let r = msg_comments(pm, path, fqn, m, acc);
    assert(r == nested_fold(pm, path, fqn, m.nested, m.nested.len() as int, a4));
    lemma_with_comment(pm, path, fqn, acc);
    lemma_leaf_keys(pm, path, fqn, MSG_FIELD, fnames, m.fields.len() as int, a1);
    lemma_leaf_keys(pm, path, fqn, MSG_ONEOF_DECL, m.oneofs, m.oneofs.len() as int, a2);
    lemma_enums_keys(pm, path, fqn, m.enums, m.enums.len() as int, a3);
    lemma_nested_keys(pm, path, fqn, m.nested, m.nested.len() as int, a4);
    assert forall|k: Seq<char>| #[trigger] r.contains_key(k) implies (acc.contains_key(k) && r[k] == acc[k])
            || exists|p: Seq<i32>| pm.contains_key(p) && #[trigger] msg_elem(path, fqn, m, p, k) && r[k] == pm[p] by {
        if !(a4.contains_key(k) && r[k] == a4[k]) {
            let p = choose|p: Seq<i32>| pm.contains_key(p) && #[trigger] nested_elem(path, fqn, m.nested, m.nested.len() as int, p, k) && r[k] == pm[p];
            assert(msg_elem(path, fqn, m, p, k));
        } else if !(a3.contains_key(k) && a4[k] == a3[k]) {
            let p = choose|p: Seq<i32>| pm.contains_key(p) && #[trigger] enums_elem(path, fqn, m.enums, m.enums.len() as int, p, k) && a4[k] == pm[p];
            assert(msg_elem(path, fqn, m, p, k));
        } else if !(a2.contains_key(k) && a3[k] == a2[k]) {
            let p = choose|p: Seq<i32>| pm.contains_key(p) && #[trigger] leaf_elem(path, fqn, MSG_ONEOF_DECL, m.oneofs, m.oneofs.len() as int, p, k) && a3[k] == pm[p];
            assert(msg_elem(path, fqn, m, p, k));
        } else if !(a1.contains_key(k) && a2[k] == a1[k]) {
            let p = choose|p: Seq<i32>| pm.contains_key(p) && #[trigger] leaf_elem(path, fqn, MSG_FIELD, fnames, m.fields.len() as int, p, k) && a2[k] == pm[p];
            assert(msg_elem(path, fqn, m, p, k));
        } else if !(acc.contains_key(k) && a1[k] == acc[k]) {
            assert(k == fqn && pm.contains_key(path));
            assert(msg_elem(path, fqn, m, path, k));
        }
    }
    assert forall|p: Seq<i32>, k: Seq<char>| #[trigger] msg_elem(path, fqn, m, p, k) && pm.contains_key(p)
        implies r.contains_key(k) by {
        if p == path && k == fqn {
            assert(a1.contains_key(k));
        } else if leaf_elem(path, fqn, MSG_FIELD, fnames, m.fields.len() as int, p, k) {
            assert(a2.contains_key(k));
        } else if leaf_elem(path, fqn, MSG_ONEOF_DECL, m.oneofs, m.oneofs.len() as int, p, k) {
            assert(a3.contains_key(k));
        } else if enums_elem(path, fqn, m.enums, m.enums.len() as int, p, k) {
            assert(a4.contains_key(k));
        } else {
            assert(nested_elem(path, fqn, m.nested, m.nested.len() as int, p, k));
        }
    }
}

proof fn lemma_nested_keys(pm: Map<Seq<i32>, Seq<char>>, path: Seq<i32>, fqn: Seq<char>, ms: Seq<MessageModel>, n: int, acc: Map<Seq<char>, Seq<char>>)
    ensures
        ({
            let r = nested_fold(pm, path, fqn, ms, n, acc);
            &&& forall|k: Seq<char>| #[trigger] acc.contains_key(k) ==> r.contains_key(k)
            &&& forall|k: Seq<char>| #[trigger] r.contains_key(k) ==> (acc.contains_key(k) && r[k] == acc[k])
                || exists|p: Seq<i32>| pm.contains_key(p) && #[trigger] nested_elem(path, fqn, ms, n, p, k) && r[k] == pm[p]
            &&& forall|p: Seq<i32>, k: Seq<char>| #[trigger] nested_elem(path, fqn, ms, n, p, k) && pm.contains_key(p)
                ==> r.contains_key(k)
        }),
    decreases ms, n,
{
    if 0 < n <= ms.len() {
        let prev = nested_fold(pm, path, fqn, ms, n - 1, acc);
        let r = nested_fold(pm, path, fqn, ms, n, acc);
        let pp = path + seq![MSG_NESTED_TYPE, (n - 1) as i32];
        let kk = child_fqn(fqn, ms[n - 1].name);
        lemma_nested_keys(pm, path, fqn, ms, n - 1, acc);
        lemma_msg_keys(pm, pp, kk, ms[n - 1], prev);
        assert(r == msg_comments(pm, pp, kk, ms[n - 1], prev));
        assert forall|k: Seq<char>| #[trigger] r.contains_key(k) implies (acc.contains_key(k) && r[k] == acc[k])
            || exists|p: Seq<i32>| pm.contains_key(p) && #[trigger] nested_elem(path, fqn, ms, n, p, k) && r[k] == pm[p] by {
            if prev.contains_key(k) && r[k] == prev[k] {
                if !(acc.contains_key(k) && prev[k] == acc[k]) {
                    let p = choose|p: Seq<i32>| pm.contains_key(p) && #[trigger] nested_elem(path, fqn, ms, n - 1, p, k) && prev[k] == pm[p];
                    assert(nested_elem(path, fqn, ms, n, p, k));
                }
            } else {
                let p = choose|p: Seq<i32>| pm.contains_key(p) && #[trigger] msg_elem(pp, kk, ms[n - 1], p, k) && r[k] == pm[p];
                assert(nested_elem(path, fqn, ms, n, p, k));
            }
        }
        assert forall|p: Seq<i32>, k: Seq<char>| #[trigger] nested_elem(path, fqn, ms, n, p, k) && pm.contains_key(p)
            implies r.contains_key(k) by {
            if nested_elem(path, fqn, ms, n - 1, p, k) {
                assert(prev.contains_key(k));
            } else {
                assert(msg_elem(pp, kk, ms[n - 1], p, k));
            }
        }
    }
}

proof fn lemma_top_enums_keys(pm: Map<Seq<i32>, Seq<char>>, pkg: Seq<char>, es: Seq<EnumModel>, n: int, acc: Map<Seq<char>, Seq<char>>)
    ensures
        ({
            let r = top_enum_fold(pm, pkg, es, n, acc);
            &&& forall|k: Seq<char>| #[trigger] acc.contains_key(k) ==> r.contains_key(k)
            &&& forall|k: Seq<char>| #[trigger] r.contains_key(k) ==> (acc.contains_key(k) && r[k] == acc[k])
                || exists|p: Seq<i32>| pm.contains_key(p) && #[trigger] top_enums_elem(pkg, es, n, p, k) && r[k] == pm[p]
            &&& forall|p: Seq<i32>, k: Seq<char>| #[trigger] top_enums_elem(pkg, es, n, p, k) && pm.contains_key(p)
                ==> r.contains_key(k)
        }),
    decreases n,
{
    if 0 < n <= es.len() {
        let prev = top_enum_fold(pm, pkg, es, n - 1, acc);
        let r = top_enum_fold(pm, pkg, es, n, acc);
        let pp = seq![FILE_ENUM_TYPE, (n - 1) as i32];
        let kk = fqn_join_spec(pkg, name_text(es[n - 1].name));
        lemma_top_enums_keys(pm, pkg, es, n - 1, acc);
        lemma_enum_keys(pm, pp, kk, es[n - 1], prev);
        assert(r == enum_comments(pm, pp, kk, es[n - 1], prev));
        assert forall|k: Seq<char>| #[trigger] r.contains_key(k) implies (acc.contains_key(k) && r[k] == acc[k])
            || exists|p: Seq<i32>| pm.contains_key(p) && #[trigger] top_enums_elem(pkg, es, n, p, k) && r[k] == pm[p] by {
            if prev.contains_key(k) && r[k] == prev[k] {
                if !(acc.contains_key(k) && prev[k] == acc[k]) {
                    let p = choose|p: Seq<i32>| pm.contains_key(p) && #[trigger] top_enums_elem(pkg, es, n - 1, p, k) && prev[k] == pm[p];
                    assert(top_enums_elem(pkg, es, n, p, k));
                }
            } else {
                let p = choose|p: Seq<i32>| pm.contains_key(p) && #[trigger] enum_elem(pp, kk, es[n - 1], p, k) && r[k] == pm[p];
                assert(top_enums_elem(pkg, es, n, p, k));
            }
        }
        assert forall|p: Seq<i32>, k: Seq<char>| #[trigger] top_enums_elem(pkg, es, n, p, k) && pm.contains_key(p)
            implies r.contains_key(k) by {
            if top_enums_elem(pkg, es, n - 1, p, k) {
                assert(prev.contains_key(k));
            } else {
                assert(enum_elem(pp, kk, es[n - 1], p, k));
            }
        }
    }
}

proof fn lemma_top_msgs_keys(pm: Map<Seq<i32>, Seq<char>>, pkg: Seq<char>, ms: Seq<MessageModel>, n: int, acc: Map<Seq<char>, Seq<char>>)
    ensures
        ({
            let r = top_msg_fold(pm, pkg, ms, n, acc);
            &&& forall|k: Seq<char>| #[trigger] acc.contains_key(k) ==> r.contains_key(k)
            &&& forall|k: Seq<char>| #[trigger] r.contains_key(k) ==> (acc.contains_key(k) && r[k] == acc[k])
                || exists|p: Seq<i32>| pm.contains_key(p) && #[trigger] top_msgs_elem(pkg, ms, n, p, k) && r[k] == pm[p]
            &&& forall|p: Seq<i32>, k: Seq<char>| #[trigger] top_msgs_elem(pkg, ms, n, p, k) && pm.contains_key(p)
                ==> r.contains_key(k)
        }),
    decreases n,
{
    if 0 < n <= ms.len() {
        let prev = top_msg_fold(pm, pkg, ms, n - 1, acc);
        let r = top_msg_fold(pm, pkg, ms, n, acc);
        let pp = seq![FILE_MESSAGE_TYPE, (n - 1) as i32];
        let kk = fqn_join_spec(pkg, name_text(ms[n - 1].name));
        lemma_top_msgs_keys(pm, pkg, ms, n - 1, acc);
        lemma_msg_keys(pm, pp, kk, ms[n - 1], prev);
        assert(r == msg_comments(pm, pp, kk, ms[n - 1], prev));
        assert forall|k: Seq<char>| #[trigger] r.contains_key(k) implies (acc.contains_key(k) && r[k] == acc[k])
            || exists|p: Seq<i32>| pm.contains_key(p) && #[trigger] top_msgs_elem(pkg, ms, n, p, k) && r[k] == pm[p] by {
            if prev.contains_key(k) && r[k] == prev[k] {
                if !(acc.contains_key(k) && prev[k] == acc[k]) {
                    let p = choose|p: Seq<i32>| pm.contains_key(p) && #[trigger] top_msgs_elem(pkg, ms, n - 1, p, k) && prev[k] == pm[p];
                    assert(top_msgs_elem(pkg, ms, n, p, k));
                }
            } else {
                let p = choose|p: Seq<i32>| pm.contains_key(p) && #[trigger] msg_elem(pp, kk, ms[n - 1], p, k) && r[k] == pm[p];
                assert(top_msgs_elem(pkg, ms, n, p, k));
            }
        }
        assert forall|p: Seq<i32>, k: Seq<char>| #[trigger] top_msgs_elem(pkg, ms, n, p, k) && pm.contains_key(p)
            implies r.contains_key(k) by {
            if top_msgs_elem(pkg, ms, n - 1, p, k) {
                assert(prev.contains_key(k));
            } else {
                assert(msg_elem(pp, kk, ms[n - 1], p, k));
            }
        }
    }
}

/// The FQN map has one key for each message, field, oneof, enum and enum
/// value of the file (nested ones included) whose path has a comment: the
/// key is the element's dotted FQN, its value is the comment of that
/// element's own location, and there are no other keys.
pub proof fn law_fqn_comments_keys(f: FileModel)
    ensures
        ({
            let pm = path_map_spec(f);
            let r = fqn_comments_spec(f);
            &&& forall|k: Seq<char>| #[trigger] r.contains_key(k)
                ==> exists|p: Seq<i32>| pm.contains_key(p) && #[trigger] file_elem(f, p, k) && r[k] == pm[p]
            &&& forall|p: Seq<i32>, k: Seq<char>| #[trigger] file_elem(f, p, k) && pm.contains_key(p)
                ==> r.contains_key(k)
        }),
{
    let pm = path_map_spec(f);
    let pkg = name_text(f.package);
    let e0 = Map::<Seq<char>, Seq<char>>::empty();
    let r = fqn_comments_spec(f);
    if pm.dom().len() != 0 {
        let ae = top_enum_fold(pm, pkg, f.enums, f.enums.len() as int, e0);
        lemma_top_enums_keys(pm, pkg, f.enums, f.enums.len() as int, e0);
        lemma_top_msgs_keys(pm, pkg, f.messages, f.messages.len() as int, ae);
        assert forall|k: Seq<char>| #[trigger] r.contains_key(k)
            implies exists|p: Seq<i32>| pm.contains_key(p) && #[trigger] file_elem(f, p, k) && r[k] == pm[p] by {
            if ae.contains_key(k) && r[k] == ae[k] {
                let p = choose|p: Seq<i32>| pm.contains_key(p) && #[trigger] top_enums_elem(pkg, f.enums, f.enums.len() as int, p, k) && ae[k] == pm[p];
                assert(file_elem(f, p, k));
            } else {
                let p = choose|p: Seq<i32>| pm.contains_key(p) && #[trigger] top_msgs_elem(pkg, f.messages, f.messages.len() as int, p, k) && r[k] == pm[p];
                assert(file_elem(f, p, k));
            }
        }
        assert forall|p: Seq<i32>, k: Seq<char>| #[trigger] file_elem(f, p, k) && pm.contains_key(p)
            implies r.contains_key(k) by {
            if top_enums_elem(pkg, f.enums, f.enums.len() as int, p, k) {
                assert(ae.contains_key(k));
            }
        }
    } else {
        lemma_path_map_finite(f);
        assert forall|p: Seq<i32>| !pm.contains_key(p) by {
            if pm.contains_key(p) {
                assert(pm.dom().contains(p));
                vstd::set_lib::lemma_set_empty_equivalency_len(pm.dom());
            }
        }
    }
}

} // verus!
