//! Rust identifier rules used when rendering paths for rustdoc links.

use vstd::prelude::*;
use crate::string_map::chars_eq;
use crate::text::{chars_of, push_str, push_chars};

verus! {

/// The Rust keywords (strict, edition-2018 and reserved), which may not be
/// used as plain identifiers.
pub open spec fn keyword_list() -> Seq<&'static str> {
    seq![
        "as", "break", "const", "continue", "crate", "else", "enum", "extern", "false", "fn",
        "for", "if", "impl", "in", "let", "loop", "match", "mod", "move", "mut", "pub", "ref",
        "return", "self", "Self", "static", "struct", "super", "trait", "true", "type",
        "unsafe", "use", "where", "while", "async", "await", "dyn", "abstract", "become", "box",
        "do", "final", "macro", "override", "priv", "typeof", "unsized", "virtual", "yield",
        "try",
    ]
}

/// Whether `s` is a Rust keyword.
pub open spec fn is_keyword(s: Seq<char>) -> bool {
    exists|i: int| 0 <= i < keyword_list().len() && s == (#[trigger] keyword_list()[i])@
}

/// The keywords that cannot be written as raw identifiers.
pub open spec fn is_unrawable(s: Seq<char>) -> bool {
    s == "self"@ || s == "super"@ || s == "crate"@ || s == "Self"@
}

/// A module-path segment made usable: raw (`r#type`) for keywords that allow
/// it, suffixed with `_` for the few that do not, unchanged otherwise.
pub open spec fn escaped_mod_ident(s: Seq<char>) -> Seq<char> {
    if !is_keyword(s) {
        s
    } else if is_unrawable(s) {
        s + "_"@
    } else {
        "r#"@ + s
    }
}

fn eq_lit(s: &Vec<char>, lit: &str) -> (r: bool)
    ensures
        r == (s@ == lit@),
{
    let l = chars_of(lit);
    chars_eq(s.as_slice(), l.as_slice())
}

/// Whether `s` is a Rust keyword.
pub fn is_rust_keyword(s: &Vec<char>) -> (r: bool)
    ensures
        r == is_keyword(s@),
{
    let kws: [&'static str; 51] = [
        "as", "break", "const", "continue", "crate", "else", "enum", "extern", "false", "fn",
        "for", "if", "impl", "in", "let", "loop", "match", "mod", "move", "mut", "pub", "ref",
        "return", "self", "Self", "static", "struct", "super", "trait", "true", "type",
        "unsafe", "use", "where", "while", "async", "await", "dyn", "abstract", "become", "box",
        "do", "final", "macro", "override", "priv", "typeof", "unsized", "virtual", "yield",
        "try",
    ];
    assert(kws@ =~= keyword_list());
    let mut i: usize = 0;
    while i < 51
        invariant
            kws@ == keyword_list(),
            i <= 51,
            forall|j: int| 0 <= j < i ==> s@ != (#[trigger] keyword_list()[j])@,
        decreases 51 - i,
    {
        if eq_lit(s, kws[i]) {
            return true;
        }
        i = i + 1;
    }
    false
}

/// Appends the escaped form of the segment `seg` to `out`.
pub fn push_escaped_mod_ident(out: &mut String, seg: &Vec<char>)
    ensures
        final(out)@ == old(out)@ + escaped_mod_ident(seg@),
{
    if !is_rust_keyword(seg) {
        push_chars(out, seg, 0, seg.len());
        assert(seg@.subrange(0, seg@.len() as int) =~= seg@);
    } else if eq_lit(seg, "self") || eq_lit(seg, "super") || eq_lit(seg, "crate") || eq_lit(
        seg,
        "Self",
    ) {
        push_chars(out, seg, 0, seg.len());
        push_str(out, "_");
        assert(seg@.subrange(0, seg@.len() as int) =~= seg@);
        assert(out@ =~= old(out)@ + escaped_mod_ident(seg@));
    } else {
        push_str(out, "r#");
        push_chars(out, seg, 0, seg.len());
        assert(seg@.subrange(0, seg@.len() as int) =~= seg@);
        assert(out@ =~= old(out)@ + escaped_mod_ident(seg@));
    }
}

} // verus!
