//! Escaping one prose line of a proto comment for rustdoc.
//!
//! Proto comments are untrusted text. Brackets and angle brackets that would
//! read as broken links or HTML tags are backslash-escaped; backtick code
//! spans, inline links `[text](url)` and autolinks `<http://…>` pass through;
//! bare `http(s)://` URLs are wrapped in `<…>`; and AIP-192 cross-references
//! `[display][proto.Type]` become intra-doc links when the type map knows the
//! type.
//!
//! All positions are character indices into the line. The special characters
//! are ASCII, so this is the same walk as one over the line's UTF-8 bytes.

use vstd::prelude::*;
use crate::idents::{escaped_mod_ident, is_keyword, is_rust_keyword, push_escaped_mod_ident};
use crate::string_map::StringMap;
use crate::text::{chars_of, extend_lit, extend_slice, lemma_leading_white_bound, lemma_trailing_white_bound, push_char, push_chars, push_str, slice_vec, starts_with, starts_with_at, trim, trim_range};

verus! {

// ── Scanning primitives ─────────────────────────────────────────────────────

/// One past the end of the run of `c` that starts at `i` (`i` itself when
/// `l[i]` is not `c`).
pub open spec fn run_end(l: Seq<char>, i: int, c: char) -> int
    decreases l.len() - i,
{
    if 0 <= i < l.len() && l[i] == c {
        run_end(l, i + 1, c)
    } else {
        i
    }
}

pub proof fn lemma_run_end(l: Seq<char>, i: int, c: char)
    requires
        0 <= i <= l.len(),
    ensures
        i <= run_end(l, i, c) <= l.len(),
        i < l.len() && l[i] == c ==> run_end(l, i, c) > i,
        forall|j: int| i <= j < run_end(l, i, c) ==> l[j] == c,
        run_end(l, i, c) < l.len() ==> l[run_end(l, i, c)] != c,
    decreases l.len() - i,
{
    if i < l.len() && l[i] == c {
        lemma_run_end(l, i + 1, c);
    }
}

/// Starting at `i`, the past-the-end index of the first backtick run of
/// exactly `run_len` backticks.
pub open spec fn backtick_closer(l: Seq<char>, i: int, run_len: int) -> Option<int>
    decreases l.len() - i,
{
    if i < 0 || i >= l.len() {
        None
    } else if l[i] == '`' {
        let e = run_end(l, i, '`');
        if e - i == run_len {
            Some(e)
        } else {
            proof {
                lemma_run_end(l, i, '`');
            }
            backtick_closer(l, e, run_len)
        }
    } else {
        backtick_closer(l, i + 1, run_len)
    }
}

pub proof fn lemma_backtick_closer(l: Seq<char>, i: int, run_len: int)
    requires
        0 <= i,
    ensures
        backtick_closer(l, i, run_len) matches Some(c) ==> i < c <= l.len(),
    decreases l.len() - i,
{
    if 0 <= i < l.len() {
        if l[i] == '`' {
            lemma_run_end(l, i, '`');
            let e = run_end(l, i, '`');
            if e - i != run_len {
                lemma_backtick_closer(l, e, run_len);
            }
        } else {
            lemma_backtick_closer(l, i + 1, run_len);
        }
    }
}

/// From `j`, the index of the first `]`, provided no `[` comes before it.
pub open spec fn close_bracket(l: Seq<char>, j: int) -> Option<int>
    decreases l.len() - j,
{
    if j < 0 || j >= l.len() {
        None
    } else if l[j] == '[' {
        None
    } else if l[j] == ']' {
        Some(j)
    } else {
        close_bracket(l, j + 1)
    }
}

pub proof fn lemma_close_bracket(l: Seq<char>, j: int)
    requires
        0 <= j,
    ensures
        close_bracket(l, j) matches Some(c) ==> j <= c < l.len() && l[c] == ']',
    decreases l.len() - j,
{
    if 0 <= j < l.len() && l[j] != '[' && l[j] != ']' {
        lemma_close_bracket(l, j + 1);
    }
}

/// From `k`, with `depth` open parentheses, the index of the `)` that brings
/// the depth to zero.
pub open spec fn paren_close(l: Seq<char>, k: int, depth: int) -> Option<int>
    decreases l.len() - k,
{
    if k < 0 || k >= l.len() {
        None
    } else if l[k] == '(' {
        paren_close(l, k + 1, depth + 1)
    } else if l[k] == ')' {
        if depth - 1 == 0 {
            Some(k)
        } else {
            paren_close(l, k + 1, depth - 1)
        }
    } else {
        paren_close(l, k + 1, depth)
    }
}

pub proof fn lemma_paren_close(l: Seq<char>, k: int, depth: int)
    requires
        0 <= k,
    ensures
        paren_close(l, k, depth) matches Some(c) ==> k <= c < l.len(),
    decreases l.len() - k,
{
    if 0 <= k < l.len() {
        if l[k] == '(' {
            lemma_paren_close(l, k + 1, depth + 1);
        } else if l[k] == ')' {
            if depth - 1 != 0 {
                lemma_paren_close(l, k + 1, depth - 1);
            }
        } else {
            lemma_paren_close(l, k + 1, depth);
        }
    }
}

/// If `l[start..]` is a complete `[text](url)`, the index of its closing `)`.
/// Parentheses inside the URL are balanced.
pub open spec fn inline_link_end(l: Seq<char>, start: int) -> Option<int> {
    match close_bracket(l, start + 1) {
        None => None,
        Some(j) => if j + 1 < l.len() && l[j + 1] == '(' {
            paren_close(l, j + 2, 1)
        } else {
            None
        },
    }
}

/// If `l[start..]` is `[display][ref]` or `[display][]`, the display text,
/// the ref target and the index past the closing `]`. Not when the second
/// bracket pair is followed by `(`.
pub open spec fn ref_link(l: Seq<char>, start: int) -> Option<(Seq<char>, Seq<char>, int)> {
    match close_bracket(l, start + 1) {
        None => None,
        Some(j) => if j + 1 < l.len() && l[j + 1] == '[' {
            match close_bracket(l, j + 2) {
                None => None,
                Some(k) => if k + 1 < l.len() && l[k + 1] == '(' {
                    None
                } else {
                    Some((l.subrange(start + 1, j), l.subrange(j + 2, k), k + 1))
                },
            }
        } else {
            None
        },
    }
}

/// From `from`, the index of the first `c`.
pub open spec fn index_of(l: Seq<char>, from: int, c: char) -> Option<int>
    decreases l.len() - from,
{
    if from < 0 || from >= l.len() {
        None
    } else if l[from] == c {
        Some(from)
    } else {
        index_of(l, from + 1, c)
    }
}

pub proof fn lemma_index_of(l: Seq<char>, from: int, c: char)
    requires
        0 <= from,
    ensures
        index_of(l, from, c) matches Some(p) ==> from <= p < l.len() && l[p] == c,
    decreases l.len() - from,
{
    if 0 <= from < l.len() && l[from] != c {
        lemma_index_of(l, from + 1, c);
    }
}

/// Whether `l[i..]` starts with `http://` or `https://`.
pub open spec fn url_at(l: Seq<char>, i: int) -> bool {
    0 <= i <= l.len() && (starts_with(l.skip(i), "http://"@) || starts_with(
        l.skip(i),
        "https://"@,
    ))
}

/// If `l[start..]` is `<http(s)://…>`, the index of the `>`.
pub open spec fn autolink_end(l: Seq<char>, start: int) -> Option<int> {
    if url_at(l, start + 1) {
        index_of(l, start + 1, '>')
    } else {
        None
    }
}

/// ASCII whitespace as `u8::is_ascii_whitespace` defines it.
pub open spec fn is_ascii_white(c: char) -> bool {
    c == ' ' || c == '\t' || c == '\n' || c == '\x0C' || c == '\r'
}

/// From `j`, the first index holding ASCII whitespace or `)`, or the end.
pub open spec fn url_stop(l: Seq<char>, j: int) -> int
    decreases l.len() - j,
{
    if 0 <= j < l.len() && !is_ascii_white(l[j]) && l[j] != ')' {
        url_stop(l, j + 1)
    } else {
        j
    }
}

pub proof fn lemma_url_stop(l: Seq<char>, j: int)
    requires
        0 <= j <= l.len(),
    ensures
        j <= url_stop(l, j) <= l.len(),
    decreases l.len() - j,
{
    if 0 <= j < l.len() && !is_ascii_white(l[j]) && l[j] != ')' {
        lemma_url_stop(l, j + 1);
    }
}

/// If a bare `http(s)://` URL starts at `start`, its past-the-end index: it
/// runs to whitespace or `)`.
pub open spec fn bare_url_end(l: Seq<char>, start: int) -> Option<int> {
    if url_at(l, start) {
        Some(url_stop(l, start))
    } else {
        None
    }
}

// ── Angle-bracket escaping ──────────────────────────────────────────────────

/// `s[i..]` with `<` and `>` backslash-escaped outside backtick code spans.
pub open spec fn escape_angle_from(s: Seq<char>, i: int) -> Seq<char>
    decreases s.len() - i,
{
    if i < 0 || i >= s.len() {
        seq![]
    } else if s[i] == '`' {
        let e = run_end(s, i, '`');
        proof {
            lemma_run_end(s, i, '`');
            lemma_backtick_closer(s, e, e - i);
        }
        match backtick_closer(s, e, e - i) {
            Some(c) => s.subrange(i, c) + escape_angle_from(s, c),
            None => s.subrange(i, e) + escape_angle_from(s, e),
        }
    } else if s[i] == '<' {
        "\\<"@ + escape_angle_from(s, i + 1)
    } else if s[i] == '>' {
        "\\>"@ + escape_angle_from(s, i + 1)
    } else {
        seq![s[i]] + escape_angle_from(s, i + 1)
    }
}

/// `s` with `<` and `>` escaped outside code spans.
pub open spec fn escape_angle(s: Seq<char>) -> Seq<char> {
    escape_angle_from(s, 0)
}

// ── Path rendering ──────────────────────────────────────────────────────────

/// `s[i..]` split at `::`, left to right, the piece in progress being `cur`
/// (`str::split("::")`).
pub open spec fn split_path_from(s: Seq<char>, i: int, cur: Seq<char>) -> Seq<Seq<char>>
    decreases s.len() - i,
{
    if i < 0 || i >= s.len() {
        seq![cur]
    } else if i + 1 < s.len() && s[i] == ':' && s[i + 1] == ':' {
        seq![cur] + split_path_from(s, i + 2, seq![])
    } else {
        split_path_from(s, i + 1, cur.push(s[i]))
    }
}

/// The `::`-separated segments of `s`.
pub open spec fn split_path(s: Seq<char>) -> Seq<Seq<char>> {
    split_path_from(s, 0, seq![])
}

/// The segments joined with `sep`.
pub open spec fn join(segs: Seq<Seq<char>>, sep: Seq<char>) -> Seq<char>
    decreases segs.len(),
{
    if segs.len() == 0 {
        seq![]
    } else if segs.len() == 1 {
        segs[0]
    } else {
        join(segs.drop_last(), sep) + sep + segs.last()
    }
}

/// A crate-relative Rust path made linkable: keyword segments escaped when
/// there is one, the path unchanged otherwise.
pub open spec fn escape_path(p: Seq<char>) -> Seq<char> {
    let segs = split_path(p);
    if exists|i: int| 0 <= i < segs.len() && is_keyword(#[trigger] segs[i]) {
        join(segs.map_values(|seg: Seq<char>| escaped_mod_ident(seg)), "::"@)
    } else {
        p
    }
}

/// Rust paths that `crate::` cannot prefix: global `::…` paths and paths that
/// already start with `crate::`.
pub open spec fn is_extern(p: Seq<char>) -> bool {
    starts_with(p, "::"@) || starts_with(p, "crate::"@)
}

// ── Cross-reference resolution ──────────────────────────────────────────────

/// From `to` backwards, the last index below `to` holding `c`.
pub open spec fn last_index_of(s: Seq<char>, to: int, c: char) -> Option<int>
    decreases to,
{
    if to <= 0 || to > s.len() {
        None
    } else if s[to - 1] == c {
        Some(to - 1)
    } else {
        last_index_of(s, to - 1, c)
    }
}

pub proof fn lemma_last_index_of(s: Seq<char>, to: int, c: char)
    ensures
        last_index_of(s, to, c) matches Some(p) ==> 0 <= p < to && s[p] == c,
    decreases to,
{
    if 0 < to <= s.len() && s[to - 1] != c {
        lemma_last_index_of(s, to - 1, c);
    }
}

/// Proto lexical scoping: look `".{scope}.{r}"` up, dropping the last
/// `.`-segment of `scope` after each miss until none is left.
pub open spec fn resolve_in_scope(r: Seq<char>, scope: Seq<char>, tm: Map<Seq<char>, Seq<char>>) -> Option<Seq<char>>
    decreases scope.len(),
{
    let cand = "."@ + scope + "."@ + r;
    if tm.contains_key(cand) {
        Some(tm[cand])
    } else {
        match last_index_of(scope, scope.len() as int, '.') {
            Some(p) => {
                proof {
                    lemma_last_index_of(scope, scope.len() as int, '.');
                }
                resolve_in_scope(r, scope.take(p), tm)
            },
            None => None,
        }
    }
}

/// The Rust path the type map gives for `r` seen from `scope`: the fully
/// qualified `".{r}"` first, then the enclosing scopes innermost first.
pub open spec fn resolve_type(r: Seq<char>, scope: Seq<char>, tm: Map<Seq<char>, Seq<char>>) -> Option<Seq<char>> {
    let fq = "."@ + r;
    if tm.contains_key(fq) {
        Some(tm[fq])
    } else if scope.len() == 0 {
        None
    } else {
        resolve_in_scope(r, scope, tm)
    }
}

/// The rustdoc link an AIP-192 reference `[display][target]` becomes, if the
/// target (or, when empty, the display text) resolves to a linkable path.
pub open spec fn resolve_ref(display: Seq<char>, target: Seq<char>, scope: Seq<char>, tm: Map<Seq<char>, Seq<char>>) -> Option<Seq<char>> {
    let eff = if target.len() == 0 {
        trim(display)
    } else {
        trim(target)
    };
    if eff.len() == 0 {
        None
    } else {
        match resolve_type(eff, scope, tm) {
            Some(p) => if is_extern(p) {
                None
            } else {
                Some("["@ + escape_angle(display) + "](crate::"@ + escape_path(p) + ")"@)
            },
            None => None,
        }
    }
}

// ── The line walk ───────────────────────────────────────────────────────────

/// The rendering of a `[` at `i` and where the walk resumes.
pub open spec fn bracket_step(l: Seq<char>, i: int, scope: Seq<char>, tm: Map<Seq<char>, Seq<char>>) -> (Seq<char>, int) {
    match inline_link_end(l, i) {
        Some(e) => (l.subrange(i, e + 1), e + 1),
        None => match ref_link(l, i) {
            Some((d, t, end)) => match resolve_ref(d, t, scope, tm) {
                Some(link) => (link, end),
                None => ("\\["@ + escape_angle(d) + "\\]\\["@ + escape_angle(t) + "\\]"@, end),
            },
            None => ("\\["@, i + 1),
        },
    }
}

/// The text emitted for the element starting at `i` and the index where the
/// walk resumes.
pub open spec fn sanitize_step(l: Seq<char>, i: int, scope: Seq<char>, tm: Map<Seq<char>, Seq<char>>) -> (Seq<char>, int) {
    let c = l[i];
    if c == '`' {
        let e = run_end(l, i, '`');
        match backtick_closer(l, e, e - i) {
            Some(cl) => (l.subrange(i, cl), cl),
            None => (l.subrange(i, e), e),
        }
    } else if c == '\\' {
        if i + 1 < l.len() {
            (seq!['\\', l[i + 1]], i + 2)
        } else {
            (seq!['\\'], i + 1)
        }
    } else if c == '[' {
        bracket_step(l, i, scope, tm)
    } else if c == ']' {
        ("\\]"@, i + 1)
    } else if c == '<' {
        match autolink_end(l, i) {
            Some(e) => (l.subrange(i, e + 1), e + 1),
            None => ("\\<"@, i + 1),
        }
    } else if c == '>' {
        ("\\>"@, i + 1)
    } else if c == 'h' {
        match bare_url_end(l, i) {
            Some(e) => ("<"@ + l.subrange(i, e) + ">"@, e),
            None => (seq!['h'], i + 1),
        }
    } else {
        (seq![c], i + 1)
    }
}

pub proof fn lemma_sanitize_step(l: Seq<char>, i: int, scope: Seq<char>, tm: Map<Seq<char>, Seq<char>>)
    requires
        0 <= i < l.len(),
    ensures
        i < sanitize_step(l, i, scope, tm).1 <= l.len(),
{
    lemma_run_end(l, i, '`');
    let e = run_end(l, i, '`');
    lemma_backtick_closer(l, e, e - i);
    lemma_close_bracket(l, i + 1);
    match close_bracket(l, i + 1) {
        Some(j) => {
            lemma_paren_close(l, j + 2, 1);
            lemma_close_bracket(l, j + 2);
        },
        None => {},
    }
    lemma_index_of(l, i + 1, '>');
    lemma_url_stop(l, i);
    if l[i] == 'h' && url_at(l, i) {
        reveal_strlit("http://");
        reveal_strlit("https://");
        assert(l.skip(i).len() > 0);
        assert(l[i] != ')' && !is_ascii_white(l[i]));
        lemma_url_stop(l, i + 1);
    }
}

/// The sanitised rendering of `l[i..]`.
pub open spec fn sanitize_from(l: Seq<char>, i: int, scope: Seq<char>, tm: Map<Seq<char>, Seq<char>>) -> Seq<char>
    decreases l.len() - i,
{
    if i < 0 || i >= l.len() {
        seq![]
    } else {
        let (chunk, next) = sanitize_step(l, i, scope, tm);
        proof {
            lemma_sanitize_step(l, i, scope, tm);
        }
        chunk + sanitize_from(l, next, scope, tm)
    }
}

/// The sanitised rendering of the line `l`.
pub open spec fn sanitize_spec(l: Seq<char>, scope: Seq<char>, tm: Map<Seq<char>, Seq<char>>) -> Seq<char> {
    sanitize_from(l, 0, scope, tm)
}

} // verus!

verus! {

/// `Some(v as int)` for `Some(v)`.
pub open spec fn as_int(r: Option<usize>) -> Option<int> {
    match r {
        Some(v) => Some(v as int),
        None => None,
    }
}

fn run_end_exec(l: &[char], i: usize, c: char) -> (r: usize)
    requires
        i <= l@.len(),
    ensures
        r == run_end(l@, i as int, c),
        i <= r <= l@.len(),
{
    proof {
        lemma_run_end(l@, i as int, c);
    }
    let mut j = i;
    while j < l.len() && l[j] == c
        invariant
            i <= j <= l@.len(),
            run_end(l@, i as int, c) == run_end(l@, j as int, c),
        decreases l@.len() - j,
    {
        j = j + 1;
    }
    j
}

/// Starting at `from` (just past an opening run of `run_len` backticks),
/// the past-the-end index of the matching closing run, if any.
pub fn find_backtick_closer(l: &[char], from: usize, run_len: usize) -> (r: Option<usize>)
    requires
        from <= l@.len(),
    ensures
        as_int(r) == backtick_closer(l@, from as int, run_len as int),
{
    let mut i = from;
    while i < l.len()
        invariant
            from <= i <= l@.len(),
            backtick_closer(l@, from as int, run_len as int) == backtick_closer(
                l@,
                i as int,
                run_len as int,
            ),
        decreases l@.len() - i,
    {
        if l[i] == '`' {
            let start = i;
            i = run_end_exec(l, i, '`');
            proof {
                lemma_run_end(l@, start as int, '`');
            }
            if i - start == run_len {
                return Some(i);
            }
        } else {
            i = i + 1;
        }
    }
    None
}

fn close_bracket_exec(l: &[char], from: usize) -> (r: Option<usize>)
    requires
        from <= l@.len(),
    ensures
        as_int(r) == close_bracket(l@, from as int),
{
    let mut j = from;
    while j < l.len() && l[j] != ']'
        invariant
            from <= j <= l@.len(),
            close_bracket(l@, from as int) == close_bracket(l@, j as int),
        decreases l@.len() - j,
    {
        if l[j] == '[' {
            return None;
        }
        j = j + 1;
    }
    if j >= l.len() {
        None
    } else {
        Some(j)
    }
}

/// If `l[start..]` is a complete `[text](url)`, the index of the closing
/// `)`; parentheses nested in the URL are balanced.
pub fn find_inline_link_end(l: &[char], start: usize) -> (r: Option<usize>)
    requires
        start < l@.len(),
    ensures
        as_int(r) == inline_link_end(l@, start as int),
{
    let n = l.len();
    let j = match close_bracket_exec(l, start + 1) {
        Some(j) => j,
        None => return None,
    };
    proof {
        lemma_close_bracket(l@, start + 1);
    }
    if j + 1 >= l.len() || l[j + 1] != '(' {
        return None;
    }
    let mut depth: usize = 1;
    let mut k = j + 2;
    while k < l.len()
        invariant
            j + 2 <= k <= l@.len(),
            1 <= depth <= k,
            inline_link_end(l@, start as int) == paren_close(l@, k as int, depth as int),
        decreases l@.len() - k,
    {
        if l[k] == '(' {
            depth = depth + 1;
        } else if l[k] == ')' {
            depth = depth - 1;
            if depth == 0 {
                return Some(k);
            }
        }
        k = k + 1;
    }
    None
}

/// If `l[start..]` is `[display][ref]` or `[display][]`, the index of the
/// display's closing `]`, of the ref's closing `]`, and past the end.
fn ref_link_exec(l: &[char], start: usize) -> (r: Option<(usize, usize, usize)>)
    requires
        start < l@.len(),
    ensures
        r is Some <==> ref_link(l@, start as int) is Some,
        r matches Some((j, k, end)) ==> start < j && j + 2 <= k && k < l@.len() && ref_link(
            l@,
            start as int,
        ) == Some(
            (
                l@.subrange(start + 1, j as int),
                l@.subrange(j + 2, k as int),
                end as int,
            ),
        ),
{
    let n = l.len();
    let j = match close_bracket_exec(l, start + 1) {
        Some(j) => j,
        None => return None,
    };
    proof {
        lemma_close_bracket(l@, start + 1);
    }
    if j + 1 >= l.len() || l[j + 1] != '[' {
        return None;
    }
    let k = match close_bracket_exec(l, j + 2) {
        Some(k) => k,
        None => return None,
    };
    proof {
        lemma_close_bracket(l@, j + 2);
    }
    if k + 1 < l.len() && l[k + 1] == '(' {
        return None;
    }
    Some((j, k, k + 1))
}

/// If `line[start..]` is `[display][ref]` or `[display][]`, the display text,
/// the ref target and the index past the end (indices count characters).
pub fn find_ref_link(line: &str, start: usize) -> (r: Option<(String, String, usize)>)
    ensures
        r is Some <==> (start < line@.len() && line@[start as int] == '[' && ref_link(
            line@,
            start as int,
        ) is Some),
        r matches Some((d, t, end)) ==> ref_link(line@, start as int) == Some(
            (d@, t@, end as int),
        ),
{
    let l = chars_of(line);
    if start >= l.len() || l[start] != '[' {
        return None;
    }
    match ref_link_exec(l.as_slice(), start) {
        Some((j, k, end)) => {
            let d = slice_vec(l.as_slice(), start + 1, j);
            let t = slice_vec(l.as_slice(), j + 2, k);
            Some((crate::text::string_from_chars(&d), crate::text::string_from_chars(&t), end))
        },
        None => None,
    }
}

fn index_of_exec(l: &[char], from: usize, c: char) -> (r: Option<usize>)
    requires
        from <= l@.len(),
    ensures
        as_int(r) == index_of(l@, from as int, c),
{
    let mut i = from;
    while i < l.len()
        invariant
            from <= i <= l@.len(),
            index_of(l@, from as int, c) == index_of(l@, i as int, c),
        decreases l@.len() - i,
    {
        if l[i] == c {
            return Some(i);
        }
        i = i + 1;
    }
    None
}

fn url_at_exec(l: &[char], i: usize) -> (r: bool)
    requires
        i <= l@.len(),
    ensures
        r == url_at(l@, i as int),
{
    starts_with_at(l, i, "http://") || starts_with_at(l, i, "https://")
}

/// If `l[start..]` is `<http(s)://…>`, the index of the `>`.
pub fn find_autolink_end(l: &[char], start: usize) -> (r: Option<usize>)
    requires
        start < l@.len(),
    ensures
        as_int(r) == autolink_end(l@, start as int),
{
    let n = l.len();
    if !url_at_exec(l, start + 1) {
        return None;
    }
    index_of_exec(l, start + 1, '>')
}

fn ascii_white(c: char) -> (r: bool)
    ensures
        r == is_ascii_white(c),
{
    c == ' ' || c == '\t' || c == '\n' || c == '\x0C' || c == '\r'
}

/// If a bare `http(s)://` URL starts at `start`, its past-the-end index: the
/// URL ends at ASCII whitespace or `)`.
pub fn find_bare_url_end(l: &[char], start: usize) -> (r: Option<usize>)
    requires
        start <= l@.len(),
    ensures
        as_int(r) == bare_url_end(l@, start as int),
{
    if !url_at_exec(l, start) {
        return None;
    }
    let mut j = start;
    while j < l.len() && !ascii_white(l[j]) && l[j] != ')'
        invariant
            start <= j <= l@.len(),
            url_stop(l@, start as int) == url_stop(l@, j as int),
        decreases l@.len() - j,
    {
        j = j + 1;
    }
    Some(j)
}

fn escape_angle_chars(s: &[char]) -> (r: String)
    ensures
        r@ == escape_angle(s@),
{
    let mut out = String::new();
    let mut i: usize = 0;
    while i < s.len()
        invariant
            i <= s@.len(),
            escape_angle(s@) == out@ + escape_angle_from(s@, i as int),
        decreases s@.len() - i,
    {
        let ghost oi = i as int;
        let ghost prev = out@;
        if s[i] == '`' {
            let run_start = i;
            i = run_end_exec(s, i, '`');
            proof {
                lemma_run_end(s@, run_start as int, '`');
                lemma_backtick_closer(s@, i as int, (i - run_start) as int);
            }
            match find_backtick_closer(s, i, i - run_start) {
                Some(close_end) => {
                    push_chars(&mut out, s, run_start, close_end);
                    i = close_end;
                },
                None => {
                    push_chars(&mut out, s, run_start, i);
                },
            }
        } else if s[i] == '<' {
            push_str(&mut out, "\\<");
            i = i + 1;
        } else if s[i] == '>' {
            push_str(&mut out, "\\>");
            i = i + 1;
        } else {
            push_char(&mut out, s[i]);
            i = i + 1;
        }
        assert(out@ + escape_angle_from(s@, i as int) =~= prev + escape_angle_from(s@, oi));
    }
    assert(out@ =~= out@ + escape_angle_from(s@, i as int));
    out
}

/// Escape `<` and `>` in a display or ref-target string so rustdoc does not
/// read them as HTML tags; backtick code spans are left verbatim.
pub fn escape_angle_brackets(s: &str) -> (r: String)
    ensures
        r@ == escape_angle(s@),
{
    let c = chars_of(s);
    escape_angle_chars(c.as_slice())
}

} // verus!

verus! {

/// The character sequences of a vector of character vectors.
pub open spec fn seq_views(v: Seq<Vec<char>>) -> Seq<Seq<char>> {
    Seq::new(v.len(), |j: int| v[j]@)
}

fn split_path_exec(p: &[char]) -> (segs: Vec<Vec<char>>)
    ensures
        seq_views(segs@) == split_path(p@),
{
    let mut segs: Vec<Vec<char>> = Vec::new();
    let mut cur: Vec<char> = Vec::new();
    let mut i: usize = 0;
    let n = p.len();
    while i < n
        invariant
            n == p@.len(),
            i <= n,
            split_path(p@) == seq_views(segs@) + split_path_from(p@, i as int, cur@),
        decreases n - i,
    {
        if i + 1 < n && p[i] == ':' && p[i + 1] == ':' {
            let ghost old_segs = seq_views(segs@);
            let ghost old_cur = cur@;
            let finished = cur;
            segs.push(finished);
            cur = Vec::new();
            i = i + 2;
            assert(seq_views(segs@) =~= old_segs + seq![old_cur]);
        } else {
            cur.push(p[i]);
            i = i + 1;
        }
    }
    let ghost old_segs = seq_views(segs@);
    let ghost old_cur = cur@;
    segs.push(cur);
    assert(seq_views(segs@) =~= old_segs + seq![old_cur]);
    segs
}

/// Escape keyword segments in a `::`-separated Rust path for use in an
/// intra-doc link (`google::type::LatLng` → `google::r#type::LatLng`).
pub fn escape_path_for_link(path: &str) -> (r: String)
    ensures
        r@ == escape_path(path@),
{
    let p = chars_of(path);
    let segs = split_path_exec(p.as_slice());
    let ghost sv = split_path(p@);
    let mut any = false;
    let mut i: usize = 0;
    while i < segs.len()
        invariant
            seq_views(segs@) == sv,
            i <= segs@.len(),
            any == exists|j: int| 0 <= j < i && is_keyword(#[trigger] sv[j]),
        decreases segs@.len() - i,
    {
        if is_rust_keyword(&segs[i]) {
            any = true;
            assert(sv[i as int] == segs@[i as int]@);
        }
        i = i + 1;
        proof {
            if any {
                let j = choose|j: int| 0 <= j < i - 1 && is_keyword(#[trigger] sv[j]);
                if j < 0 {
                }
            }
            assert(sv[i - 1] == segs@[i - 1]@);
        }
    }
    if !any {
        return crate::text::string_from_chars(&p);
    }
    let ghost mapped = sv.map_values(|seg: Seq<char>| escaped_mod_ident(seg));
    let mut out = String::new();
    let mut k: usize = 0;
    while k < segs.len()
        invariant
            seq_views(segs@) == sv,
            mapped == sv.map_values(|seg: Seq<char>| escaped_mod_ident(seg)),
            k <= segs@.len(),
            out@ == join(mapped.take(k as int), "::"@),
        decreases segs@.len() - k,
    {
        let ghost before = out@;
        if k > 0 {
            push_str(&mut out, "::");
        }
        crate::idents::push_escaped_mod_ident(&mut out, &segs[k]);
        proof {
            assert(sv[k as int] == segs@[k as int]@);
            let t = mapped.take(k + 1);
            assert(t.drop_last() =~= mapped.take(k as int));
            if k == 0 {
                assert(out@ =~= mapped[0]);
            } else {
                assert(out@ =~= join(t.drop_last(), "::"@) + "::"@ + t.last());
            }
        }
        k = k + 1;
    }
    assert(mapped.take(segs@.len() as int) =~= mapped);
    out
}

/// Whether `rust_path` cannot be linked by prepending `crate::`: a global
/// `::…` path or one already starting with `crate::`.
pub fn is_extern_path(rust_path: &[char]) -> (r: bool)
    ensures
        r == is_extern(rust_path@),
{
    assert(rust_path@.skip(0) =~= rust_path@);
    starts_with_at(rust_path, 0, "::") || starts_with_at(rust_path, 0, "crate::")
}

fn last_index_exec(s: &[char], to: usize, c: char) -> (r: Option<usize>)
    requires
        to <= s@.len(),
    ensures
        as_int(r) == last_index_of(s@, to as int, c),
{
    let mut j = to;
    while j > 0
        invariant
            j <= to <= s@.len(),
            last_index_of(s@, to as int, c) == last_index_of(s@, j as int, c),
        decreases j,
    {
        if s[j - 1] == c {
            return Some(j - 1);
        }
        j = j - 1;
    }
    None
}

/// The Rust path the type map gives for `type_ref` resolved from
/// `scope_fqn`: fully qualified first, then walking up the scope one
/// segment at a time (proto lexical scoping).
pub fn resolve_type_fqn<'m>(type_ref: &[char], scope_fqn: &[char], type_map: &'m StringMap) -> (r: Option<&'m String>)
    ensures
        r is Some <==> resolve_type(type_ref@, scope_fqn@, type_map@) is Some,
        r matches Some(p) ==> resolve_type(type_ref@, scope_fqn@, type_map@) == Some(p@),
{
    let mut fq: Vec<char> = Vec::new();
    extend_lit(&mut fq, ".");
    extend_slice(&mut fq, type_ref, 0, type_ref.len());
    assert(type_ref@.subrange(0, type_ref@.len() as int) =~= type_ref@);
    if let Some(p) = type_map.get_chars(&fq) {
        return Some(p);
    }
    if scope_fqn.len() == 0 {
        return None;
    }
    let mut n = scope_fqn.len();
    assert(scope_fqn@.take(n as int) =~= scope_fqn@);
    loop
        invariant
            n <= scope_fqn@.len(),
            resolve_type(type_ref@, scope_fqn@, type_map@) == resolve_in_scope(
                type_ref@,
                scope_fqn@.take(n as int),
                type_map@,
            ),
        decreases n,
    {
        let ghost sc = scope_fqn@.take(n as int);
        let mut cand: Vec<char> = Vec::new();
        extend_lit(&mut cand, ".");
        extend_slice(&mut cand, scope_fqn, 0, n);
        extend_lit(&mut cand, ".");
        extend_slice(&mut cand, type_ref, 0, type_ref.len());
        assert(cand@ =~= "."@ + sc + "."@ + type_ref@);
        if let Some(p) = type_map.get_chars(&cand) {
            return Some(p);
        }
        match last_index_exec(scope_fqn, n, '.') {
            Some(p) => {
                proof {
                    lemma_last_index_of(scope_fqn@, n as int, '.');
                    assert(last_index_of(sc, sc.len() as int, '.') == last_index_of(
                        scope_fqn@,
                        n as int,
                        '.',
                    )) by {
                        lemma_last_index_prefix(scope_fqn@, n as int, n as int, '.');
                    }
                    assert(sc.take(p as int) =~= scope_fqn@.take(p as int));
                }
                n = p;
            },
            None => {
                proof {
                    lemma_last_index_prefix(scope_fqn@, n as int, n as int, '.');
                }
                return None;
            },
        }
    }
}

proof fn lemma_last_index_prefix(s: Seq<char>, n: int, to: int, c: char)
    requires
        0 <= to <= n <= s.len(),
    ensures
        last_index_of(s.take(n), to, c) == last_index_of(s, to, c),
    decreases to,
{
    if to > 0 {
        lemma_last_index_prefix(s, n, to - 1, c);
    }
}

} // verus!

verus! {

fn resolve_ref_chars(display: &[char], target: &[char], scope: &[char], type_map: &StringMap) -> (r: Option<String>)
    ensures
        r is Some <==> resolve_ref(display@, target@, scope@, type_map@) is Some,
        r matches Some(link) ==> resolve_ref(display@, target@, scope@, type_map@) == Some(link@),
{
    assert(display@.subrange(0, display@.len() as int) =~= display@);
    assert(target@.subrange(0, target@.len() as int) =~= target@);
    let eff = if target.len() == 0 {
        let (a, b) = trim_range(display, 0, display.len());
        slice_vec(display, a, b)
    } else {
        let (a, b) = trim_range(target, 0, target.len());
        slice_vec(target, a, b)
    };
    if eff.len() == 0 {
        return None;
    }
    match resolve_type_fqn(eff.as_slice(), scope, type_map) {
        Some(p) => {
            let pc = chars_of(p.as_str());
            if is_extern_path(pc.as_slice()) {
                return None;
            }
            let mut out = String::new();
            push_str(&mut out, "[");
            let d = escape_angle_chars(display);
            push_str(&mut out, d.as_str());
            push_str(&mut out, "](crate::");
            let esc = escape_path_for_link(p.as_str());
            push_str(&mut out, esc.as_str());
            push_str(&mut out, ")");
            assert(out@ =~= "["@ + escape_angle(display@) + "](crate::"@ + escape_path(p@) + ")"@);
            Some(out)
        },
        None => None,
    }
}

/// Try to resolve an AIP-192 cross-reference into a rustdoc inline link
/// `[display](crate::rust::path)`; `None` when the reference cannot be
/// resolved or names an unlinkable (extern) path, so the caller escapes it.
pub fn resolve_proto_ref(display: &str, ref_target: &str, scope_fqn: &str, type_map: &StringMap) -> (r: Option<String>)
    ensures
        r is Some <==> resolve_ref(display@, ref_target@, scope_fqn@, type_map@) is Some,
        r matches Some(link) ==> resolve_ref(display@, ref_target@, scope_fqn@, type_map@) == Some(
            link@,
        ),
{
    let d = chars_of(display);
    let t = chars_of(ref_target);
    let s = chars_of(scope_fqn);
    resolve_ref_chars(d.as_slice(), t.as_slice(), s.as_slice(), type_map)
}

fn bracket_step_exec(l: &[char], i: usize, scope: &[char], type_map: &StringMap, out: &mut String) -> (next: usize)
    requires
        i < l@.len(),
        l@[i as int] == '[',
    ensures
        final(out)@ == old(out)@ + bracket_step(l@, i as int, scope@, type_map@).0,
        next == bracket_step(l@, i as int, scope@, type_map@).1,
{
    let n = l.len();
    if let Some(end) = find_inline_link_end(l, i) {
        proof {
            lemma_close_bracket(l@, i + 1);
            let j = close_bracket(l@, i + 1)->0;
            lemma_paren_close(l@, j + 2, 1);
        }
        push_chars(out, l, i, end + 1);
        return end + 1;
    }
    match ref_link_exec(l, i) {
        Some((j, k, end)) => {
            let d = slice_vec(l, i + 1, j);
            let t = slice_vec(l, j + 2, k);
            match resolve_ref_chars(d.as_slice(), t.as_slice(), scope, type_map) {
                Some(link) => {
                    push_str(out, link.as_str());
                },
                None => {
                    push_str(out, "\\[");
                    let ed = escape_angle_chars(d.as_slice());
                    push_str(out, ed.as_str());
                    push_str(out, "\\]\\[");
                    let et = escape_angle_chars(t.as_slice());
                    push_str(out, et.as_str());
                    push_str(out, "\\]");
                    assert(out@ =~= old(out)@ + ("\\["@ + escape_angle(d@) + "\\]\\["@ + escape_angle(t@) + "\\]"@));
                },
            }
            end
        },
        None => {
            push_str(out, "\\[");
            i + 1
        },
    }
}

fn sanitize_step_exec(l: &[char], i: usize, scope: &[char], type_map: &StringMap, out: &mut String) -> (next: usize)
    requires
        i < l@.len(),
    ensures
        final(out)@ == old(out)@ + sanitize_step(l@, i as int, scope@, type_map@).0,
        next == sanitize_step(l@, i as int, scope@, type_map@).1,
{
    let n = l.len();
    let c = l[i];
    if c == '`' {
        let e = run_end_exec(l, i, '`');
        proof {
            lemma_run_end(l@, i as int, '`');
            lemma_backtick_closer(l@, e as int, (e - i) as int);
        }
        match find_backtick_closer(l, e, e - i) {
            Some(cl) => {
                push_chars(out, l, i, cl);
                cl
            },
            None => {
                push_chars(out, l, i, e);
                e
            },
        }
    } else if c == '\\' {
        push_char(out, '\\');
        if i + 1 < n {
            push_char(out, l[i + 1]);
            assert(out@ =~= old(out)@ + seq!['\\', l@[i + 1]]);
            i + 2
        } else {
            i + 1
        }
    } else if c == '[' {
        bracket_step_exec(l, i, scope, type_map, out)
    } else if c == ']' {
        push_str(out, "\\]");
        i + 1
    } else if c == '<' {
        match find_autolink_end(l, i) {
            Some(e) => {
                proof {
                    lemma_index_of(l@, i + 1, '>');
                }
                push_chars(out, l, i, e + 1);
                e + 1
            },
            None => {
                push_str(out, "\\<");
                i + 1
            },
        }
    } else if c == '>' {
        push_str(out, "\\>");
        i + 1
    } else if c == 'h' {
        match find_bare_url_end(l, i) {
            Some(e) => {
                proof {
                    lemma_url_stop(l@, i as int);
                }
                push_char(out, '<');
                push_chars(out, l, i, e);
                push_char(out, '>');
                proof {
                    reveal_strlit("<");
                    reveal_strlit(">");
                    assert(out@ =~= old(out)@ + ("<"@ + l@.subrange(i as int, e as int) + ">"@));
                }
                e
            },
            None => {
                push_char(out, 'h');
                i + 1
            },
        }
    } else {
        push_char(out, c);
        i + 1
    }
}

/// Sanitise one prose line of proto comment text for rustdoc, resolving
/// AIP-192 cross-references into intra-doc links where possible and
/// escaping everything else.
pub fn sanitize_line_with_refs(line: &str, scope_fqn: &str, type_map: &StringMap) -> (r: String)
    ensures
        r@ == sanitize_spec(line@, scope_fqn@, type_map@),
{
    let l = chars_of(line);
    let scope = chars_of(scope_fqn);
    sanitize_chars(l.as_slice(), scope.as_slice(), type_map)
}

/// [`sanitize_line_with_refs`] over the line's characters.
pub fn sanitize_chars(l: &[char], scope: &[char], type_map: &StringMap) -> (r: String)
    ensures
        r@ == sanitize_spec(l@, scope@, type_map@),
{
    let mut out = String::new();
    let mut i: usize = 0;
    while i < l.len()
        invariant
            i <= l@.len(),
            sanitize_spec(l@, scope@, type_map@) == out@ + sanitize_from(
                l@,
                i as int,
                scope@,
                type_map@,
            ),
        decreases l@.len() - i,
    {
        let ghost oi = i as int;
        let ghost prev = out@;
        proof {
            lemma_sanitize_step(l@, i as int, scope@, type_map@);
        }
        i = sanitize_step_exec(l, i, scope, type_map, &mut out);
        assert(out@ + sanitize_from(l@, i as int, scope@, type_map@) =~= prev + sanitize_from(
            l@,
            oi,
            scope@,
            type_map@,
        ));
    }
    assert(out@ =~= out@ + sanitize_from(l@, i as int, scope@, type_map@));
    out
}

} // verus!

verus! {

// ── Laws ────────────────────────────────────────────────────────────────────

/// A character the sanitiser treats as markup.
pub open spec fn is_markup(c: char) -> bool {
    c == '`' || c == '\\' || c == '[' || c == ']' || c == '<' || c == '>'
}

/// A line with no markup character and no `http(s)://` URL.
pub open spec fn plain_prose(l: Seq<char>) -> bool {
    forall|i: int| 0 <= i < l.len() ==> !is_markup(#[trigger] l[i]) && !url_at(l, i)
}

proof fn lemma_plain_from(l: Seq<char>, i: int, scope: Seq<char>, tm: Map<Seq<char>, Seq<char>>)
    requires
        plain_prose(l),
        0 <= i <= l.len(),
    ensures
        sanitize_from(l, i, scope, tm) == l.skip(i),
    decreases l.len() - i,
{
    if i < l.len() {
        assert(!is_markup(l[i]) && !url_at(l, i));
        lemma_plain_from(l, i + 1, scope, tm);
        assert(sanitize_step(l, i, scope, tm) == (seq![l[i]], i + 1));
        assert(seq![l[i]] + l.skip(i + 1) =~= l.skip(i));
    } else {
        assert(l.skip(i) =~= Seq::<char>::empty());
    }
}

/// Plain prose passes through the sanitiser unchanged, whatever the scope
/// and type map.
pub proof fn law_plain_prose_unchanged(l: Seq<char>, scope: Seq<char>, tm: Map<Seq<char>, Seq<char>>)
    requires
        plain_prose(l),
    ensures
        sanitize_spec(l, scope, tm) == l,
{
    lemma_plain_from(l, 0, scope, tm);
    assert(l.skip(0) =~= l);
}

/// `x[a..b]` is a whole run of backticks: nothing but backticks, and no
/// backtick just before or just after it.
pub open spec fn backtick_run(x: Seq<char>, a: int, b: int) -> bool {
    &&& 0 <= a < b <= x.len()
    &&& (a == 0 || x[a - 1] != '`')
    &&& (b == x.len() || x[b] != '`')
    &&& forall|m: int| a <= m < b ==> x[m] == '`'
}

/// `n` backticks.
pub open spec fn backticks(n: nat) -> Seq<char> {
    Seq::new(n, |i: int| '`')
}

proof fn lemma_span_closer(l: Seq<char>, k: int, xl: int, i: int)
    requires
        k >= 1,
        xl >= 1,
        l.len() == 2 * k + xl,
        forall|j: int| 0 <= j < k ==> l[j] == '`',
        forall|j: int| k + xl <= j < l.len() ==> l[j] == '`',
        l[k] != '`',
        l[k + xl - 1] != '`',
        forall|a: int, b: int| #[trigger] backtick_run(l, a, b) && k <= a && b <= k + xl ==> b - a != k,
        k <= i <= k + xl,
        i == k || l[i - 1] != '`' || l[i] != '`',
    ensures
        backtick_closer(l, i, k) == Some(l.len() as int),
    decreases l.len() - i,
{
    lemma_run_end(l, i, '`');
    let e = run_end(l, i, '`');
    if i == k + xl {
        if e < l.len() {
            assert(l[e] == '`');
        }
    } else if l[i] == '`' {
        if e > k + xl - 1 {
            assert(l[k + xl - 1] == '`');
        }
        if e < l.len() {
            assert(l[e] != '`');
        }
        assert(backtick_run(l, i, e));
        lemma_span_closer(l, k, xl, e);
    } else {
        lemma_span_closer(l, k, xl, i + 1);
    }
}

/// A code span — a run of `k` backticks, text that neither starts nor ends
/// with a backtick and holds no run of exactly `k` backticks, and a closing
/// run of `k` — is copied verbatim: nothing in it is escaped and no
/// reference in it is resolved, whatever the scope and type map.
pub proof fn law_code_span_verbatim(k: nat, x: Seq<char>, scope: Seq<char>, tm: Map<Seq<char>, Seq<char>>)
    requires
        k >= 1,
        x.len() == 0 || (x[0] != '`' && x.last() != '`'),
        forall|a: int, b: int| #[trigger] backtick_run(x, a, b) ==> b - a != k,
    ensures
        sanitize_spec(backticks(k) + x + backticks(k), scope, tm) == backticks(k) + x + backticks(k),
{
    let l = backticks(k) + x + backticks(k);
    let xl = x.len() as int;
    let ki = k as int;
    assert(l.len() == 2 * ki + xl);
    assert forall|j: int| 0 <= j < ki implies l[j] == '`' by {}
    assert forall|j: int| ki + xl <= j < l.len() implies l[j] == '`' by {}
    assert forall|j: int| ki <= j < ki + xl implies l[j] == x[j - ki] by {}
    assert(sanitize_from(l, l.len() as int, scope, tm) == Seq::<char>::empty());
    lemma_run_end(l, 0, '`');
    let e = run_end(l, 0, '`');
    assert(l[0] == '`');
    if xl == 0 {
        if e < l.len() {
            assert(l[e] == '`');
        }
        assert(e == l.len());
        assert(backtick_closer(l, e, e) is None);
    } else {
        assert(l[ki] == x[0]);
        if e > ki {
            assert(l[ki] == '`');
        }
        if e < ki {
            assert(l[e] == '`');
        }
        assert(e == ki);
        assert(l[ki + xl - 1] == x.last());
        assert forall|a: int, b: int| #[trigger] backtick_run(l, a, b) && ki <= a && b <= ki + xl implies b - a != ki by {
            assert forall|m: int| a - ki <= m < b - ki implies x[m] == '`' by {
                assert(l[m + ki] == '`');
            }
            if a > ki {
                assert(x[a - ki - 1] == l[a - 1]);
            }
            if b < ki + xl {
                assert(x[b - ki] == l[b]);
            }
            assert(backtick_run(x, a - ki, b - ki));
        }
        lemma_span_closer(l, ki, xl, ki);
    }
    assert(l.subrange(0, l.len() as int) =~= l);
    assert(sanitize_step(l, 0, scope, tm) == (l, l.len() as int));
    assert(l + Seq::<char>::empty() =~= l);
}

proof fn lemma_escape_angle_plain(s: Seq<char>, i: int)
    requires
        forall|k: int| 0 <= k < s.len() ==> #[trigger] s[k] != '<' && s[k] != '>',
        0 <= i <= s.len(),
    ensures
        escape_angle_from(s, i) == s.skip(i),
    decreases s.len() - i,
{
    if i < s.len() {
        if s[i] == '`' {
            let e = run_end(s, i, '`');
            lemma_run_end(s, i, '`');
            lemma_backtick_closer(s, e, e - i);
            match backtick_closer(s, e, e - i) {
                Some(c) => {
                    lemma_escape_angle_plain(s, c);
                    assert(s.subrange(i, c) + s.skip(c) =~= s.skip(i));
                },
                None => {
                    lemma_escape_angle_plain(s, e);
                    assert(s.subrange(i, e) + s.skip(e) =~= s.skip(i));
                },
            }
        } else {
            lemma_escape_angle_plain(s, i + 1);
            assert(seq![s[i]] + s.skip(i + 1) =~= s.skip(i));
        }
    } else {
        assert(s.skip(i) =~= Seq::<char>::empty());
    }
}

/// Angle-bracket escaping changes nothing in a text without `<` or `>`.
pub proof fn law_escape_angle_plain(s: Seq<char>)
    requires
        forall|k: int| 0 <= k < s.len() ==> #[trigger] s[k] != '<' && s[k] != '>',
    ensures
        escape_angle(s) == s,
{
    lemma_escape_angle_plain(s, 0);
    assert(s.skip(0) =~= s);
}

} // verus!

verus! {

/// `a` is `scope` or one of its enclosing scopes: a prefix ending just
/// before a `.` of `scope`.
pub open spec fn scope_ancestor(a: Seq<char>, scope: Seq<char>) -> bool {
    a == scope || (a.len() < scope.len() && scope.take(a.len() as int) == a && scope[a.len() as int] == '.')
}

/// The type-map key of `r` seen from scope `a`.
pub open spec fn scoped_key(a: Seq<char>, r: Seq<char>) -> Seq<char> {
    "."@ + a + "."@ + r
}

proof fn lemma_last_index_of_none_after(s: Seq<char>, to: int, c: char)
    requires
        0 <= to <= s.len(),
    ensures
        last_index_of(s, to, c) matches Some(p) ==> forall|i: int| p < i < to ==> s[i] != c,
        last_index_of(s, to, c) is None ==> forall|i: int| 0 <= i < to ==> s[i] != c,
    decreases to,
{
    if 0 < to && s[to - 1] != c {
        lemma_last_index_of_none_after(s, to - 1, c);
    }
}

proof fn lemma_resolve_in_scope(r: Seq<char>, s: Seq<char>, tm: Map<Seq<char>, Seq<char>>)
    ensures
        resolve_in_scope(r, s, tm) is None ==> forall|a: Seq<char>| #[trigger] scope_ancestor(a, s) ==> !tm.contains_key(scoped_key(a, r)),
        resolve_in_scope(r, s, tm) matches Some(x) ==> exists|a: Seq<char>|
            #[trigger] scope_ancestor(a, s) && tm.contains_key(scoped_key(a, r)) && tm[scoped_key(a, r)] == x && forall|b: Seq<char>|
                #[trigger] scope_ancestor(b, s) && b.len() > a.len() ==> !tm.contains_key(scoped_key(b, r)),
    decreases s.len(),
{
    let cand = "."@ + s + "."@ + r;
    assert(cand == scoped_key(s, r));
    if tm.contains_key(cand) {
        assert(scope_ancestor(s, s));
        assert forall|b: Seq<char>| #[trigger] scope_ancestor(b, s) && b.len() > s.len() implies !tm.contains_key(scoped_key(b, r)) by {}
    } else {
        lemma_last_index_of(s, s.len() as int, '.');
        lemma_last_index_of_none_after(s, s.len() as int, '.');
        match last_index_of(s, s.len() as int, '.') {
            Some(p) => {
                let t = s.take(p);
                lemma_resolve_in_scope(r, t, tm);
                // The enclosing scopes of `s` are `s` and those of `t`.
                assert forall|b: Seq<char>| #[trigger] scope_ancestor(b, s) && b != s implies scope_ancestor(b, t) by {
                    if b.len() < p {
                        assert(t.take(b.len() as int) =~= s.take(b.len() as int));
                        assert(t[b.len() as int] == s[b.len() as int]);
                    } else {
                        assert(b.len() == p);
                        assert(b =~= t);
                    }
                }
                assert forall|b: Seq<char>| #[trigger] scope_ancestor(b, t) implies scope_ancestor(b, s) by {
                    if b == t {
                        assert(s.take(p) == b);
                    } else {
                        assert(s.take(b.len() as int) =~= t.take(b.len() as int));
                        assert(s[b.len() as int] == t[b.len() as int]);
                    }
                }
                match resolve_in_scope(r, t, tm) {
                    Some(x) => {
                        let a = choose|a: Seq<char>|
                            #[trigger] scope_ancestor(a, t) && tm.contains_key(scoped_key(a, r)) && tm[scoped_key(a, r)] == x
                                && forall|b: Seq<char>| #[trigger] scope_ancestor(b, t) && b.len() > a.len() ==> !tm.contains_key(
                                scoped_key(b, r),
                            );
                        assert(scope_ancestor(a, s));
                        assert forall|b: Seq<char>| #[trigger] scope_ancestor(b, s) && b.len() > a.len() implies !tm.contains_key(
                            scoped_key(b, r),
                        ) by {
                            if b != s {
                                assert(scope_ancestor(b, t));
                            }
                        }
                    },
                    None => {},
                }
            },
            None => {
                assert forall|a: Seq<char>| #[trigger] scope_ancestor(a, s) implies !tm.contains_key(scoped_key(a, r)) by {
                    if a != s {
                        assert(s[a.len() as int] == '.');
                    }
                }
            },
        }
    }
}

/// Cross-references resolve by proto lexical scoping: the fully qualified
/// name first; then the innermost enclosing scope of `scope` (itself
/// included) whose key the type map holds; nothing when no candidate is in
/// the map.
pub proof fn law_resolve_type_innermost(r: Seq<char>, scope: Seq<char>, tm: Map<Seq<char>, Seq<char>>)
    requires
        scope.len() > 0,
    ensures
        tm.contains_key("."@ + r) ==> resolve_type(r, scope, tm) == Some(tm["."@ + r]),
        !tm.contains_key("."@ + r) ==> match resolve_type(r, scope, tm) {
            None => forall|a: Seq<char>| #[trigger] scope_ancestor(a, scope) ==> !tm.contains_key(scoped_key(a, r)),
            Some(x) => exists|a: Seq<char>|
                #[trigger] scope_ancestor(a, scope) && tm.contains_key(scoped_key(a, r)) && tm[scoped_key(a, r)] == x
                    && forall|b: Seq<char>| #[trigger] scope_ancestor(b, scope) && b.len() > a.len() ==> !tm.contains_key(
                    scoped_key(b, r),
                ),
        },
{
    lemma_resolve_in_scope(r, scope, tm);
}

/// A reference whose Rust path is global (`::`) or already `crate::`
/// rooted is never linked; one that resolves to another path is linked as
/// `[display](crate::path)`.
pub proof fn law_resolve_ref_rejects_extern(display: Seq<char>, target: Seq<char>, scope: Seq<char>, tm: Map<Seq<char>, Seq<char>>)
    ensures
        ({
            let eff = if target.len() == 0 {
                trim(display)
            } else {
                trim(target)
            };
            &&& eff.len() == 0 ==> resolve_ref(display, target, scope, tm) is None
            &&& eff.len() > 0 ==> match resolve_type(eff, scope, tm) {
                Some(p) => if is_extern(p) {
                    resolve_ref(display, target, scope, tm) is None
                } else {
                    resolve_ref(display, target, scope, tm) == Some("["@ + escape_angle(display) + "](crate::"@ + escape_path(p) + ")"@)
                },
                None => resolve_ref(display, target, scope, tm) is None,
            }
        }),
{
}

} // verus!
