//! Turning a proto comment into the lines of a rustdoc comment.
//!
//! Indented blocks (four columns, tabs advancing to the next multiple of
//! four) are wrapped in a ```` ```text ```` fence; author-written fences
//! (backticks or tildes) pass their content through verbatim while the
//! opener's info string is rewritten so rustdoc never compiles the block;
//! prose lines are sanitised. A fence left open is closed at the end, so it
//! cannot swallow doc text emitted after the comment.

use vstd::prelude::*;
use crate::sanitize::{join, sanitize_chars, sanitize_spec};
use crate::string_map::StringMap;
use crate::text::{
    chars_of, extend_lit, extend_slice, leading_count, lemma_leading_white_bound, push_char,
    push_chars, push_str, skip_white, starts_with, starts_with_at, string_from_chars, trim_start,
};

verus! {

/// Width of one indentation level, in columns (CommonMark's tab stop).
pub const INDENT_COLUMNS: usize = 4;

// ── Line shapes ─────────────────────────────────────────────────────────────

/// `line` with the single leading space `#[doc = "…"]` needs; blank lines
/// stay blank.
pub open spec fn pad_spec(l: Seq<char>) -> Seq<char> {
    if l.len() == 0 || l[0] == ' ' {
        l
    } else {
        seq![' '] + l
    }
}

/// Walking `l` from `i` at column `column`, the offset where the leading
/// whitespace reaches `columns` columns.
pub open spec fn indent_from(l: Seq<char>, columns: int, i: int, column: int) -> Option<int>
    decreases l.len() - i,
{
    if i < 0 || i >= l.len() {
        if column >= columns {
            Some(l.len() as int)
        } else {
            None
        }
    } else if column >= columns {
        Some(i)
    } else if l[i] == ' ' {
        indent_from(l, columns, i + 1, column + 1)
    } else if l[i] == '\t' {
        indent_from(l, columns, i + 1, column + 4 - column % 4)
    } else {
        None
    }
}

/// The offset at which `l` reaches `columns` columns of leading whitespace.
pub open spec fn indent_split_spec(l: Seq<char>, columns: int) -> Option<int> {
    indent_from(l, columns, 0, 0)
}

/// An indented-code-block line: leading whitespace reaching four columns.
pub open spec fn is_indented_spec(l: Seq<char>) -> bool {
    indent_split_spec(l, 4) is Some
}

/// One level of indentation removed, unless what remains would read as a
/// backtick fence marker.
pub open spec fn strip_indent_spec(l: Seq<char>) -> Seq<char> {
    match indent_split_spec(l, 4) {
        None => l,
        Some(o) => if starts_with(trim_start(l.skip(o)), "```"@) {
            l
        } else {
            l.skip(o)
        },
    }
}

/// A fenced-code-block marker line.
pub struct FenceShape {
    /// How many spaces precede the run (at most three).
    pub indent: nat,
    /// The fence character: a backtick or a tilde.
    pub ch: char,
    /// The length of the run; a closer needs at least as many.
    pub len: nat,
    /// Whatever follows the run.
    pub info: Seq<char>,
}

/// If `l` is a fence marker — at most three spaces, then a run of three or
/// more backticks or tildes — its shape. An indented line is code, not a
/// fence, and a backtick fence's info string may not hold a backtick.
pub open spec fn fence_marker_spec(l: Seq<char>) -> Option<FenceShape> {
    if is_indented_spec(l) {
        None
    } else {
        let il = leading_count(l, ' ');
        let rest = l.skip(il as int);
        if rest.len() == 0 {
            None
        } else {
            let ch = rest[0];
            if ch != '`' && ch != '~' {
                None
            } else {
                let run = leading_count(rest, ch);
                let info = rest.skip(run as int);
                if run < 3 || (ch == '`' && info.contains('`')) {
                    None
                } else {
                    Some(FenceShape { indent: il, ch, len: run, info })
                }
            }
        }
    }
}

/// Whether a marker closes the fence `open`: same character, a run at least
/// as long, nothing but spaces or tabs after it.
pub open spec fn closes_spec(f: FenceShape, open: (char, nat)) -> bool {
    f.ch == open.0 && f.len >= open.1 && forall|i: int|
        0 <= i < f.info.len() ==> (#[trigger] f.info[i] == ' ' || f.info[i] == '\t')
}

// ── Fence info strings ──────────────────────────────────────────────────────

pub open spec fn is_info_sep(c: char) -> bool {
    c == ',' || c == ' ' || c == '\t'
}

/// The non-empty pieces of `s[i..]` between separators, the piece in
/// progress being `cur`.
pub open spec fn tokens_from(s: Seq<char>, i: int, cur: Seq<char>) -> Seq<Seq<char>>
    decreases s.len() - i,
{
    if i < 0 || i >= s.len() {
        if cur.len() > 0 {
            seq![cur]
        } else {
            seq![]
        }
    } else if is_info_sep(s[i]) {
        if cur.len() > 0 {
            seq![cur] + tokens_from(s, i + 1, seq![])
        } else {
            tokens_from(s, i + 1, seq![])
        }
    } else {
        tokens_from(s, i + 1, cur.push(s[i]))
    }
}

/// The tokens of an info string: its non-empty pieces between `,`, space
/// and tab.
pub open spec fn info_tokens(s: Seq<char>) -> Seq<Seq<char>> {
    tokens_from(s, 0, seq![])
}

/// An `ignore-<target>` token.
pub open spec fn is_target_ignore(t: Seq<char>) -> bool {
    starts_with(t, "ignore-"@)
}

/// The tokens that are not `ignore-<target>`, in order.
pub open spec fn kept_tokens(ts: Seq<Seq<char>>) -> Seq<Seq<char>>
    decreases ts.len(),
{
    if ts.len() == 0 {
        seq![]
    } else if is_target_ignore(ts.last()) {
        kept_tokens(ts.drop_last())
    } else {
        kept_tokens(ts.drop_last()).push(ts.last())
    }
}

/// The info string emitted for a fence opener: `ignore-<target>` tokens
/// dropped, a bare `ignore` ensured, the rest kept in order; an opener left
/// with no token becomes `text`, or `rust,ignore` when it only had
/// `ignore-<target>` tokens.
pub open spec fn fence_info_spec(info: Seq<char>) -> Seq<char> {
    let ts = info_tokens(info);
    let k = kept_tokens(ts);
    if k.len() == 0 {
        if exists|i: int| 0 <= i < ts.len() && is_target_ignore(#[trigger] ts[i]) {
            "rust,ignore"@
        } else {
            "text"@
        }
    } else if k.contains("ignore"@) {
        join(k, ","@)
    } else {
        join(k.push("ignore"@), ","@)
    }
}

// ── Splitting into lines ────────────────────────────────────────────────────

pub open spec fn strip_cr(c: Seq<char>) -> Seq<char> {
    if c.len() > 0 && c.last() == '\r' {
        c.drop_last()
    } else {
        c
    }
}

/// The lines of `s[i..]` (`str::lines`), the line in progress being `cur`.
pub open spec fn lines_from(s: Seq<char>, i: int, cur: Seq<char>) -> Seq<Seq<char>>
    decreases s.len() - i,
{
    if i < 0 || i >= s.len() {
        if cur.len() > 0 {
            seq![cur]
        } else {
            seq![]
        }
    } else if s[i] == '\n' {
        seq![strip_cr(cur)] + lines_from(s, i + 1, seq![])
    } else {
        lines_from(s, i + 1, cur.push(s[i]))
    }
}

/// `str::lines`: split at `\n`, a `\r` before it dropped, no final empty
/// line.
pub open spec fn text_lines(s: Seq<char>) -> Seq<Seq<char>> {
    lines_from(s, 0, seq![])
}

// ── The line-by-line formatter ──────────────────────────────────────────────

/// Where the formatter stands between lines.
pub struct DocState {
    /// Inside a synthetic `text` fence around an indented block.
    pub in_code: bool,
    /// Inside an author's fence with this character and run length.
    pub open: Option<(char, nat)>,
}

/// `n` copies of `c`.
pub open spec fn repeat_char(c: char, n: nat) -> Seq<char> {
    Seq::new(n, |i: int| c)
}

/// Whether the first non-empty line from `j` on is indented.
pub open spec fn next_nonempty_indented(lines: Seq<Seq<char>>, j: int) -> bool
    decreases lines.len() - j,
{
    if j < 0 || j >= lines.len() {
        false
    } else if lines[j].len() == 0 {
        next_nonempty_indented(lines, j + 1)
    } else {
        is_indented_spec(lines[j])
    }
}

/// The lines emitted for `line` outside any fence, and the state after it.
pub open spec fn classify(line: Seq<char>, scope: Seq<char>, tm: Map<Seq<char>, Seq<char>>) -> (Seq<Seq<char>>, DocState) {
    match fence_marker_spec(line) {
        Some(f) => (
            seq![pad_spec(repeat_char(' ', f.indent) + repeat_char(f.ch, f.len) + fence_info_spec(f.info))],
            DocState { in_code: false, open: Some((f.ch, f.len)) },
        ),
        None => if is_indented_spec(line) {
            (seq![" ```text"@, pad_spec(strip_indent_spec(line))], DocState { in_code: true, open: None })
        } else if line.len() == 0 {
            (seq![seq![]], DocState { in_code: false, open: None })
        } else {
            (seq![pad_spec(sanitize_spec(line, scope, tm))], DocState { in_code: false, open: None })
        },
    }
}

/// The lines emitted for `lines[idx]` in state `st`, and the state after it.
pub open spec fn doc_step(lines: Seq<Seq<char>>, idx: int, st: DocState, scope: Seq<char>, tm: Map<Seq<char>, Seq<char>>) -> (Seq<Seq<char>>, DocState) {
    let line = lines[idx];
    match st.open {
        Some(o) => {
            let closes = match fence_marker_spec(line) {
                Some(f) => closes_spec(f, o),
                None => false,
            };
            (seq![pad_spec(line)], DocState { in_code: st.in_code, open: if closes { None } else { Some(o) } })
        },
        None => if st.in_code {
            if is_indented_spec(line) {
                (seq![pad_spec(strip_indent_spec(line))], st)
            } else if line.len() == 0 && next_nonempty_indented(lines, idx + 1) {
                (seq![seq![]], st)
            } else {
                let (em, st2) = classify(line, scope, tm);
                (seq![" ```"@] + em, st2)
            }
        } else {
            classify(line, scope, tm)
        },
    }
}

/// The closing lines for whatever is still open at the end.
pub open spec fn doc_close(st: DocState) -> Seq<Seq<char>> {
    (if st.in_code {
        seq![" ```"@]
    } else {
        seq![]
    }) + match st.open {
        Some((ch, len)) => seq![seq![' '] + repeat_char(ch, len)],
        None => seq![],
    }
}

/// The lines emitted for `lines[idx..]` starting in state `st`.
pub open spec fn doc_from(lines: Seq<Seq<char>>, idx: int, st: DocState, scope: Seq<char>, tm: Map<Seq<char>, Seq<char>>) -> Seq<Seq<char>>
    decreases lines.len() - idx,
{
    if idx < 0 || idx >= lines.len() {
        doc_close(st)
    } else {
        let (em, st2) = doc_step(lines, idx, st, scope, tm);
        em + doc_from(lines, idx + 1, st2, scope, tm)
    }
}

/// The rustdoc lines for a comment `text`, prose refs resolved from `scope`
/// through `tm`.
pub open spec fn doc_lines_spec(text: Seq<char>, scope: Seq<char>, tm: Map<Seq<char>, Seq<char>>) -> Seq<Seq<char>> {
    doc_from(text_lines(text), 0, DocState { in_code: false, open: None }, scope, tm)
}

} // verus!

verus! {

/// Give a rendered line the single leading space `#[doc = "…"]` needs to
/// unparse as `/// …`; blank lines stay blank.
pub fn pad(line: &[char]) -> (r: String)
    ensures
        r@ == pad_spec(line@),
{
    let mut out = String::new();
    if line.len() > 0 && line[0] != ' ' {
        push_char(&mut out, ' ');
    }
    push_chars(&mut out, line, 0, line.len());
    assert(line@.subrange(0, line@.len() as int) =~= line@);
    proof {
        if line@.len() > 0 && line@[0] != ' ' {
            assert(out@ =~= seq![' '] + line@);
        }
    }
    out
}

/// Offset at which `line` reaches `columns` columns of leading whitespace,
/// tabs advancing to the next multiple of four; `None` if it never does.
pub fn indent_split(line: &[char], columns: usize) -> (r: Option<usize>)
    requires
        columns <= usize::MAX - 4,
    ensures
        crate::sanitize::as_int(r) == indent_split_spec(line@, columns as int),
{
    let mut column: usize = 0;
    let mut i: usize = 0;
    while i < line.len()
        invariant
            i <= line@.len(),
            columns <= usize::MAX - 4,
            column <= columns + 3,
            indent_split_spec(line@, columns as int) == indent_from(
                line@,
                columns as int,
                i as int,
                column as int,
            ),
        decreases line@.len() - i,
    {
        if column >= columns {
            return Some(i);
        }
        if line[i] == ' ' {
            column = column + 1;
        } else if line[i] == '\t' {
            column = column + (INDENT_COLUMNS - (column % INDENT_COLUMNS));
        } else {
            return None;
        }
        i = i + 1;
    }
    if column >= columns {
        Some(line.len())
    } else {
        None
    }
}

/// An indented-code-block line: leading whitespace reaching four columns.
pub fn is_indented(line: &[char]) -> (r: bool)
    ensures
        r == is_indented_spec(line@),
{
    indent_split(line, INDENT_COLUMNS).is_some()
}

/// Remove one level of code-block indentation, but keep it on a line that
/// would otherwise read as a backtick fence marker.
pub fn strip_indent(line: &[char]) -> (r: Vec<char>)
    ensures
        r@ == strip_indent_spec(line@),
{
    match indent_split(line, INDENT_COLUMNS) {
        None => crate::text::slice_vec(line, 0, line.len()),
        Some(offset) => {
            proof {
                lemma_indent_bound(line@, 4, 0, 0);
            }
            let w = skip_white(line, offset, line.len());
            proof {
                let st = line@.skip(offset as int);
                assert(st =~= line@.subrange(offset as int, line@.len() as int));
                lemma_leading_white_bound(st);
                assert(trim_start(st) =~= line@.skip(w as int));
            }
            if starts_with_at(line, w, "```") {
                crate::text::slice_vec(line, 0, line.len())
            } else {
                crate::text::slice_vec(line, offset, line.len())
            }
        },
    }
}

proof fn lemma_indent_bound(l: Seq<char>, columns: int, i: int, column: int)
    requires
        0 <= i,
    ensures
        indent_from(l, columns, i, column) matches Some(o) ==> 0 <= o <= l.len(),
    decreases l.len() - i,
{
    if 0 <= i < l.len() && column < columns {
        if l[i] == ' ' {
            lemma_indent_bound(l, columns, i + 1, column + 1);
        } else if l[i] == '\t' {
            lemma_indent_bound(l, columns, i + 1, column + 4 - column % 4);
        }
    }
}

/// A fenced-code-block marker line.
pub struct Fence {
    /// How many spaces precede the run.
    pub indent: usize,
    /// The fence character: a backtick or a tilde.
    pub ch: char,
    /// The length of the run. A closer needs at least as many.
    pub len: usize,
    /// Whatever follows the run.
    pub info: Vec<char>,
}

impl Fence {
    pub open spec fn shape(&self) -> FenceShape {
        FenceShape { indent: self.indent as nat, ch: self.ch, len: self.len as nat, info: self.info@ }
    }

    /// Whether this marker closes `open`: same character, a run at least as
    /// long, and nothing but spaces or tabs after it.
    pub fn closes(&self, open: (char, usize)) -> (r: bool)
        ensures
            r == closes_spec(self.shape(), (open.0, open.1 as nat)),
    {
        if self.ch != open.0 || self.len < open.1 {
            return false;
        }
        let mut i: usize = 0;
        while i < self.info.len()
            invariant
                i <= self.info@.len(),
                forall|j: int| 0 <= j < i ==> (#[trigger] self.info@[j] == ' ' || self.info@[j] == '\t'),
            decreases self.info@.len() - i,
        {
            if self.info[i] != ' ' && self.info[i] != '\t' {
                assert(!(self.shape().info[i as int] == ' ' || self.shape().info[i as int] == '\t'));
                return false;
            }
            i = i + 1;
        }
        true
    }
}

fn count_leading(s: &[char], from: usize, c: char) -> (r: usize)
    requires
        from <= s@.len(),
    ensures
        from + leading_count(s@.skip(from as int), c) == r,
        r <= s@.len(),
{
    let mut i = from;
    while i < s.len() && s[i] == c
        invariant
            from <= i <= s@.len(),
            leading_count(s@.skip(from as int), c) == (i - from) + leading_count(s@.skip(i as int), c),
        decreases s@.len() - i,
    {
        assert(s@.skip(i as int).drop_first() =~= s@.skip(i + 1));
        i = i + 1;
    }
    i
}

/// If `line` is a fence marker — at most three spaces, then a run of three
/// or more backticks or tildes — the marker.
pub fn fence_marker(line: &[char]) -> (r: Option<Fence>)
    ensures
        match r {
            Some(f) => fence_marker_spec(line@) == Some(f.shape()),
            None => fence_marker_spec(line@) is None,
        },
{
    if is_indented(line) {
        return None;
    }
    let il = count_leading(line, 0, ' ');
    assert(line@.skip(0) =~= line@);
    let ghost rest = line@.skip(il as int);
    if il >= line.len() {
        return None;
    }
    let ch = line[il];
    if ch != '`' && ch != '~' {
        return None;
    }
    let e = count_leading(line, il, ch);
    let ghost run = leading_count(rest, ch);
    let len = e - il;
    let mut has_tick = false;
    let mut k = e;
    while k < line.len()
        invariant
            e <= k <= line@.len(),
            has_tick == exists|j: int| e <= j < k && line@[j] == '`',
        decreases line@.len() - k,
    {
        if line[k] == '`' {
            has_tick = true;
        }
        k = k + 1;
    }
    let ghost info = rest.skip(run as int);
    assert(info =~= line@.skip(e as int));
    proof {
        if has_tick {
            let j = choose|j: int| e <= j < line@.len() && line@[j] == '`';
            assert(info[j - e] == '`');
        }
        if info.contains('`') {
            let j = choose|j: int| 0 <= j < info.len() && info[j] == '`';
            assert(line@[e + j] == '`');
        }
    }
    if len < 3 || (ch == '`' && has_tick) {
        return None;
    }
    let info_v = crate::text::slice_vec(line, e, line.len());
    Some(Fence { indent: il, ch, len, info: info_v })
}

} // verus!

verus! {

fn info_tokens_exec(s: &[char]) -> (toks: Vec<Vec<char>>)
    ensures
        crate::sanitize::seq_views(toks@) == info_tokens(s@),
{
    let mut toks: Vec<Vec<char>> = Vec::new();
    let mut cur: Vec<char> = Vec::new();
    let mut i: usize = 0;
    while i < s.len()
        invariant
            i <= s@.len(),
            info_tokens(s@) == crate::sanitize::seq_views(toks@) + tokens_from(s@, i as int, cur@),
        decreases s@.len() - i,
    {
        let c = s[i];
        let ghost pv = crate::sanitize::seq_views(toks@);
        let ghost pc = cur@;
        let ghost pi = i as int;
        if c == ',' || c == ' ' || c == '\t' {
            if cur.len() > 0 {
                let ghost ov = crate::sanitize::seq_views(toks@);
                let ghost oc = cur@;
                let t = cur;
                toks.push(t);
                cur = Vec::new();
                assert(crate::sanitize::seq_views(toks@) =~= ov + seq![oc]);
            }
        } else {
            cur.push(c);
        }
        i = i + 1;
        proof {
            if is_info_sep(s@[pi]) {
                if pc.len() > 0 {
                    assert(tokens_from(s@, pi, pc) == seq![pc] + tokens_from(s@, pi + 1, seq![]));
                    assert(cur@ =~= Seq::<char>::empty());
                    assert(crate::sanitize::seq_views(toks@) =~= pv + seq![pc]);
                } else {
                    assert(tokens_from(s@, pi, pc) == tokens_from(s@, pi + 1, seq![]));
                    assert(pc =~= Seq::<char>::empty());
                }
            } else {
                assert(tokens_from(s@, pi, pc) == tokens_from(s@, pi + 1, pc.push(s@[pi])));
            }
        }
        assert(crate::sanitize::seq_views(toks@) + tokens_from(s@, i as int, cur@) =~= pv + tokens_from(s@, pi, pc));
    }
    if cur.len() > 0 {
        let ghost ov = crate::sanitize::seq_views(toks@);
        let ghost oc = cur@;
        toks.push(cur);
        assert(crate::sanitize::seq_views(toks@) =~= ov + seq![oc]);
    } else {
        assert(crate::sanitize::seq_views(toks@) =~= crate::sanitize::seq_views(toks@) + Seq::<Seq<char>>::empty());
    }
    toks
}

/// Append the parts to `out`, separated by `sep`.
pub fn join_into(out: &mut String, parts: &Vec<Vec<char>>, sep: &str)
    ensures
        final(out)@ == old(out)@ + join(crate::sanitize::seq_views(parts@), sep@),
{
    let ghost pv = crate::sanitize::seq_views(parts@);
    let ghost o0 = out@;
    let mut k: usize = 0;
    assert(o0 + join(pv.take(0), sep@) =~= o0);
    while k < parts.len()
        invariant
            pv == crate::sanitize::seq_views(parts@),
            k <= parts@.len(),
            out@ == o0 + join(pv.take(k as int), sep@),
        decreases parts@.len() - k,
    {
        if k > 0 {
            push_str(out, sep);
        }
        push_chars(out, parts[k].as_slice(), 0, parts[k].len());
        proof {
            assert(parts@[k as int]@.subrange(0, parts@[k as int]@.len() as int) =~= pv[k as int]);
            let t = pv.take(k + 1);
            assert(t.drop_last() =~= pv.take(k as int));
            if k == 0 {
                assert(out@ =~= o0 + pv[0]);
                assert(join(t, sep@) == pv[0]);
            } else {
                assert(out@ =~= o0 + (join(t.drop_last(), sep@) + sep@ + t.last()));
            }
        }
        k = k + 1;
    }
    assert(pv.take(parts@.len() as int) =~= pv);
}

/// The info string to emit for a fence opener so that rustdoc never compiles
/// the fence body: `ignore-<target>` tokens are dropped, a bare `ignore` is
/// ensured, and the author's language is kept; an unannotated fence becomes
/// `text`.
pub fn fence_info_chars(info: &[char]) -> (r: String)
    ensures
        r@ == fence_info_spec(info@),
{
    let toks = info_tokens_exec(info);
    let ghost ts = crate::sanitize::seq_views(toks@);
    let mut kept: Vec<Vec<char>> = Vec::new();
    let mut dropped = false;
    let mut has_ignore = false;
    let mut j: usize = 0;
    while j < toks.len()
        invariant
            ts == crate::sanitize::seq_views(toks@),
            j <= toks@.len(),
            crate::sanitize::seq_views(kept@) == kept_tokens(ts.take(j as int)),
            dropped == exists|i: int| 0 <= i < j && is_target_ignore(#[trigger] ts[i]),
            has_ignore == crate::sanitize::seq_views(kept@).contains("ignore"@),
        decreases toks@.len() - j,
    {
        let ghost prev_kept = crate::sanitize::seq_views(kept@);
        assert(ts.take(j + 1).drop_last() =~= ts.take(j as int));
        assert(ts[j as int] == toks@[j as int]@);
        if starts_with_at(toks[j].as_slice(), 0, "ignore-") {
            assert(toks@[j as int]@.skip(0) =~= toks@[j as int]@);
            dropped = true;
        } else {
            assert(toks@[j as int]@.skip(0) =~= toks@[j as int]@);
            let t = crate::text::slice_vec(toks[j].as_slice(), 0, toks[j].len());
            assert(t@ =~= ts[j as int]);
            let is_ig = crate::string_map::chars_eq(t.as_slice(), chars_of("ignore").as_slice());
            kept.push(t);
            assert(crate::sanitize::seq_views(kept@) =~= prev_kept.push(ts[j as int]));
            if is_ig {
                has_ignore = true;
                assert(crate::sanitize::seq_views(kept@)[prev_kept.len() as int] == "ignore"@);
            } else {
                assert forall|x: Seq<char>| crate::sanitize::seq_views(kept@).contains(x) && x == "ignore"@ implies prev_kept.contains(x) by {
                    let i = choose|i: int| 0 <= i < crate::sanitize::seq_views(kept@).len() && crate::sanitize::seq_views(kept@)[i] == x;
                    if i < prev_kept.len() {
                        assert(prev_kept[i] == x);
                    }
                }
                proof {
                    if has_ignore {
                        let i = choose|i: int| 0 <= i < prev_kept.len() && prev_kept[i] == "ignore"@;
                        assert(crate::sanitize::seq_views(kept@)[i] == "ignore"@);
                    }
                }
            }
        }
        j = j + 1;
        proof {
            if dropped {
                if !(exists|i: int| 0 <= i < j - 1 && is_target_ignore(#[trigger] ts[i])) {
                    assert(is_target_ignore(ts[j - 1]));
                }
            }
        }
    }
    assert(ts.take(toks@.len() as int) =~= ts);
    let mut out = String::new();
    if kept.len() == 0 {
        if dropped {
            push_str(&mut out, "rust,ignore");
        } else {
            push_str(&mut out, "text");
        }
        return out;
    }
    if !has_ignore {
        let ghost pk = crate::sanitize::seq_views(kept@);
        kept.push(chars_of("ignore"));
        assert(crate::sanitize::seq_views(kept@) =~= pk.push("ignore"@));
    }
    join_into(&mut out, &kept, ",");
    out
}

/// [`fence_info_chars`] on a string slice.
pub fn fence_info(info: &str) -> (r: String)
    ensures
        r@ == fence_info_spec(info@),
{
    let c = chars_of(info);
    fence_info_chars(c.as_slice())
}

} // verus!

verus! {

/// The character sequences of a vector of strings.
pub open spec fn string_views(v: Seq<String>) -> Seq<Seq<char>> {
    Seq::new(v.len(), |j: int| v[j]@)
}

fn text_lines_exec(s: &[char]) -> (ls: Vec<Vec<char>>)
    ensures
        crate::sanitize::seq_views(ls@) == text_lines(s@),
{
    let mut ls: Vec<Vec<char>> = Vec::new();
    let mut cur: Vec<char> = Vec::new();
    let mut i: usize = 0;
    while i < s.len()
        invariant
            i <= s@.len(),
            text_lines(s@) == crate::sanitize::seq_views(ls@) + lines_from(s@, i as int, cur@),
        decreases s@.len() - i,
    {
        let ghost pv = crate::sanitize::seq_views(ls@);
        let ghost pc = cur@;
        let ghost pi = i as int;
        if s[i] == '\n' {
            let mut done = cur;
            if done.len() > 0 && done[done.len() - 1] == '\r' {
                done.pop();
            }
            assert(done@ =~= strip_cr(pc));
            ls.push(done);
            cur = Vec::new();
            proof {
                assert(crate::sanitize::seq_views(ls@) =~= pv + seq![strip_cr(pc)]);
                assert(lines_from(s@, pi, pc) == seq![strip_cr(pc)] + lines_from(s@, pi + 1, seq![]));
            }
        } else {
            cur.push(s[i]);
        }
        i = i + 1;
        assert(crate::sanitize::seq_views(ls@) + lines_from(s@, i as int, cur@) =~= pv + lines_from(s@, pi, pc));
    }
    let ghost pv = crate::sanitize::seq_views(ls@);
    if cur.len() > 0 {
        let ghost pc = cur@;
        ls.push(cur);
        assert(crate::sanitize::seq_views(ls@) =~= pv + seq![pc]);
    } else {
        assert(pv =~= pv + Seq::<Seq<char>>::empty());
    }
    ls
}

fn next_nonempty_indented_exec(lines: &Vec<Vec<char>>, from: usize) -> (r: bool)
    requires
        from <= lines@.len(),
    ensures
        r == next_nonempty_indented(crate::sanitize::seq_views(lines@), from as int),
{
    let ghost lv = crate::sanitize::seq_views(lines@);
    let mut j = from;
    while j < lines.len()
        invariant
            lv == crate::sanitize::seq_views(lines@),
            from <= j <= lines@.len(),
            next_nonempty_indented(lv, from as int) == next_nonempty_indented(lv, j as int),
        decreases lines@.len() - j,
    {
        assert(lv[j as int] == lines@[j as int]@);
        if lines[j].len() > 0 {
            return is_indented(lines[j].as_slice());
        }
        j = j + 1;
    }
    false
}

fn push_line(out: &mut Vec<String>, line: String)
    ensures
        string_views(final(out)@) == string_views(old(out)@).push(line@),
{
    let ghost prev = string_views(out@);
    out.push(line);
    assert(string_views(out@) =~= prev.push(line@));
}

fn push_lit_line(out: &mut Vec<String>, lit: &str)
    ensures
        string_views(final(out)@) == string_views(old(out)@).push(lit@),
{
    let mut s = String::new();
    push_str(&mut s, lit);
    push_line(out, s);
}

/// Appends the lines `classify` emits for `line` and returns the state after.
fn classify_exec(line: &[char], scope: &[char], type_map: &StringMap, out: &mut Vec<String>) -> (st: (bool, Option<(char, usize)>))
    ensures
        string_views(final(out)@) == string_views(old(out)@) + classify(line@, scope@, type_map@).0,
        classify(line@, scope@, type_map@).1 == (DocState { in_code: st.0, open: open_view(st.1) }),
{
    let ghost prev = string_views(out@);
    match fence_marker(line) {
        Some(f) => {
            let mut head: Vec<char> = Vec::new();
            let mut k: usize = 0;
            while k < f.indent
                invariant
                    k <= f.indent,
                    head@ == repeat_char(' ', k as nat),
                decreases f.indent - k,
            {
                head.push(' ');
                k = k + 1;
                assert(head@ =~= repeat_char(' ', k as nat));
            }
            let mut k2: usize = 0;
            while k2 < f.len
                invariant
                    k2 <= f.len,
                    head@ == repeat_char(' ', f.indent as nat) + repeat_char(f.ch, k2 as nat),
                decreases f.len - k2,
            {
                head.push(f.ch);
                k2 = k2 + 1;
                assert(head@ =~= repeat_char(' ', f.indent as nat) + repeat_char(f.ch, k2 as nat));
            }
            let info = fence_info_chars(f.info.as_slice());
            let ic = chars_of(info.as_str());
            extend_slice(&mut head, ic.as_slice(), 0, ic.len());
            assert(ic@.subrange(0, ic@.len() as int) =~= ic@);
            let padded = pad(head.as_slice());
            push_line(out, padded);
            assert(string_views(out@) =~= prev + classify(line@, scope@, type_map@).0);
            (false, Some((f.ch, f.len)))
        },
        None => {
            if is_indented(line) {
                push_lit_line(out, " ```text");
                let st = strip_indent(line);
                let padded = pad(st.as_slice());
                push_line(out, padded);
                assert(string_views(out@) =~= prev + classify(line@, scope@, type_map@).0);
                (true, None)
            } else if line.len() == 0 {
                push_line(out, String::new());
                assert(string_views(out@) =~= prev + classify(line@, scope@, type_map@).0);
                (false, None)
            } else {
                let san = sanitize_chars(line, scope, type_map);
                let sc = chars_of(san.as_str());
                let padded = pad(sc.as_slice());
                push_line(out, padded);
                assert(string_views(out@) =~= prev + classify(line@, scope@, type_map@).0);
                (false, None)
            }
        },
    }
}

pub open spec fn open_view(o: Option<(char, usize)>) -> Option<(char, nat)> {
    match o {
        Some((c, n)) => Some((c, n as nat)),
        None => None,
    }
}

/// The rustdoc lines for a comment given as characters: indented blocks
/// fenced as `text`, author fences made inert, prose sanitised with refs
/// resolved from `scope` through `type_map`, and anything left open closed.
pub fn doc_lines_chars(text: &[char], scope: &[char], type_map: &StringMap) -> (out: Vec<String>)
    ensures
        string_views(out@) == doc_lines_spec(text@, scope@, type_map@),
{
    let lines = text_lines_exec(text);
    let ghost lv = crate::sanitize::seq_views(lines@);
    let mut out: Vec<String> = Vec::new();
    let mut in_code = false;
    let mut open: Option<(char, usize)> = None;
    let mut idx: usize = 0;
    assert(string_views(out@) =~= Seq::<Seq<char>>::empty());
    while idx < lines.len()
        invariant
            lv == crate::sanitize::seq_views(lines@),
            lv == text_lines(text@),
            idx <= lines@.len(),
            !(in_code && open is Some),
            doc_lines_spec(text@, scope@, type_map@) == string_views(out@) + doc_from(
                lv,
                idx as int,
                DocState { in_code, open: open_view(open) },
                scope@,
                type_map@,
            ),
        decreases lines@.len() - idx,
    {
        let ghost prev = string_views(out@);
        let ghost st = DocState { in_code, open: open_view(open) };
        let line = lines[idx].as_slice();
        assert(lv[idx as int] == line@);
        match open {
            Some((ch, len)) => {
                let closes = match fence_marker(line) {
                    Some(f) => f.closes((ch, len)),
                    None => false,
                };
                if closes {
                    open = None;
                }
                let padded = pad(line);
                push_line(&mut out, padded);
            },
            None => {
                if in_code {
                    if is_indented(line) {
                        let st2 = strip_indent(line);
                        let padded = pad(st2.as_slice());
                        push_line(&mut out, padded);
                    } else if line.len() == 0 && next_nonempty_indented_exec(&lines, idx + 1) {
                        push_line(&mut out, String::new());
                        assert(string_views(out@) =~= prev + seq![Seq::<char>::empty()]);
                    } else {
                        push_lit_line(&mut out, " ```");
                        let ghost mid = string_views(out@);
                        let (c2, o2) = classify_exec(line, scope, type_map, &mut out);
                        in_code = c2;
                        open = o2;
                        assert(string_views(out@) =~= prev + (seq![" ```"@] + classify(line@, scope@, type_map@).0));
                    }
                } else {
                    let (c2, o2) = classify_exec(line, scope, type_map, &mut out);
                    in_code = c2;
                    open = o2;
                }
            },
        }
        proof {
            let (em, st2) = doc_step(lv, idx as int, st, scope@, type_map@);
            assert(string_views(out@) =~= prev + em);
            assert(st2 == DocState { in_code, open: open_view(open) });
        }
        idx = idx + 1;
    }
    let ghost prev = string_views(out@);
    if in_code {
        push_lit_line(&mut out, " ```");
    }
    match open {
        Some((ch, len)) => {
            let mut closer = String::new();
            push_char(&mut closer, ' ');
            let mut k: usize = 0;
            while k < len
                invariant
                    k <= len,
                    closer@ == seq![' '] + repeat_char(ch, k as nat),
                decreases len - k,
            {
                push_char(&mut closer, ch);
                k = k + 1;
                assert(closer@ =~= seq![' '] + repeat_char(ch, k as nat));
            }
            push_line(&mut out, closer);
        },
        None => {},
    }
    assert(string_views(out@) =~= prev + doc_close(DocState { in_code, open: open_view(open) }));
    out
}

/// The rustdoc lines for `text`, prose refs resolved from `scope_fqn`.
pub fn doc_lines_with_refs(text: &str, scope_fqn: &str, type_map: &StringMap) -> (out: Vec<String>)
    ensures
        string_views(out@) == doc_lines_spec(text@, scope_fqn@, type_map@),
{
    let t = chars_of(text);
    let s = chars_of(scope_fqn);
    doc_lines_chars(t.as_slice(), s.as_slice(), type_map)
}

/// The rustdoc lines for an optional proto comment: none for `None`.
pub fn doc_lines_resolved(comment: Option<&str>, scope_fqn: &str, type_map: &StringMap) -> (out: Vec<String>)
    ensures
        string_views(out@) == match comment {
            None => Seq::<Seq<char>>::empty(),
            Some(text) => doc_lines_spec(text@, scope_fqn@, type_map@),
        },
{
    match comment {
        None => {
            let v: Vec<String> = Vec::new();
            assert(string_views(v@) =~= Seq::<Seq<char>>::empty());
            v
        },
        Some(text) => doc_lines_with_refs(text, scope_fqn, type_map),
    }
}

/// The rustdoc lines for an optional comment followed by a `tag` line. The
/// comment and the tag are rendered separately, a blank line between them,
/// so a fence the comment leaves open is closed before the tag.
pub fn doc_lines_with_tag(comment: Option<&str>, tag: &str, scope_fqn: &str, type_map: &StringMap) -> (out: Vec<String>)
    ensures
        string_views(out@) == match comment {
            None => doc_lines_spec(tag@, scope_fqn@, type_map@),
            Some(text) => doc_lines_spec(text@, scope_fqn@, type_map@) + seq![Seq::<char>::empty()]
                + doc_lines_spec(tag@, scope_fqn@, type_map@),
        },
{
    match comment {
        None => doc_lines_with_refs(tag, scope_fqn, type_map),
        Some(text) => {
            let mut body = doc_lines_with_refs(text, scope_fqn, type_map);
            push_line(&mut body, String::new());
            let tail = doc_lines_with_refs(tag, scope_fqn, type_map);
            let mut k: usize = 0;
            let ghost b0 = string_views(body@);
            while k < tail.len()
                invariant
                    k <= tail@.len(),
                    string_views(body@) == b0 + string_views(tail@).take(k as int),
                decreases tail@.len() - k,
            {
                let line = tail[k].clone();
                push_line(&mut body, line);
                k = k + 1;
                assert(string_views(body@) =~= b0 + string_views(tail@).take(k as int));
            }
            assert(string_views(tail@).take(tail@.len() as int) =~= string_views(tail@));
            body
        },
    }
}

} // verus!

verus! {

// ── Every fence is made inert ───────────────────────────────────────────────

/// A token as the tokenizer produces it: non-empty, with no separator.
pub open spec fn plain_token(t: Seq<char>) -> bool {
    t.len() > 0 && forall|k: int| 0 <= k < t.len() ==> !is_info_sep(#[trigger] t[k])
}

proof fn lemma_tokens_shift(p: Seq<char>, y: Seq<char>, j: int, cur: Seq<char>)
    requires
        0 <= j,
    ensures
        tokens_from(p + y, p.len() as int + j, cur) == tokens_from(y, j, cur),
    decreases y.len() - j,
{
    if j < y.len() {
        assert((p + y)[p.len() + j] == y[j]);
        if is_info_sep(y[j]) {
            lemma_tokens_shift(p, y, j + 1, seq![]);
        } else {
            lemma_tokens_shift(p, y, j + 1, cur.push(y[j]));
        }
    }
}

proof fn lemma_tokens_split(x: Seq<char>, y: Seq<char>, i: int, cur: Seq<char>)
    requires
        0 <= i <= x.len(),
    ensures
        tokens_from(x + seq![','] + y, i, cur) == tokens_from(x, i, cur) + tokens_from(x + seq![','] + y, x.len() + 1int, seq![]),
    decreases x.len() - i,
{
    let s = x + seq![','] + y;
    let rest = tokens_from(s, x.len() + 1int, seq![]);
    if i == x.len() {
        assert(s[i] == ',');
        if cur.len() > 0 {
            assert(tokens_from(x, i, cur) == seq![cur]);
        } else {
            assert(tokens_from(x, i, cur) =~= Seq::<Seq<char>>::empty());
            assert(seq![] + rest =~= rest);
        }
    } else {
        assert(s[i] == x[i]);
        if is_info_sep(x[i]) {
            lemma_tokens_split(x, y, i + 1, seq![]);
            if cur.len() > 0 {
                assert(seq![cur] + (tokens_from(x, i + 1, seq![]) + rest) =~= (seq![cur] + tokens_from(x, i + 1, seq![])) + rest);
            }
        } else {
            lemma_tokens_split(x, y, i + 1, cur.push(x[i]));
        }
    }
}

proof fn lemma_tokens_single(t: Seq<char>, i: int, cur: Seq<char>)
    requires
        0 <= i <= t.len(),
        forall|k: int| 0 <= k < t.len() ==> !is_info_sep(#[trigger] t[k]),
        cur + t.skip(i) != Seq::<char>::empty(),
    ensures
        tokens_from(t, i, cur) == seq![cur + t.skip(i)],
    decreases t.len() - i,
{
    if i < t.len() {
        assert(!is_info_sep(t[i]));
        assert(cur.push(t[i]) + t.skip(i + 1) =~= cur + t.skip(i));
        lemma_tokens_single(t, i + 1, cur.push(t[i]));
    } else {
        assert(cur + t.skip(i) =~= cur);
        if cur.len() == 0 {
            assert(cur =~= Seq::<char>::empty());
        }
    }
}

/// Joining plain tokens with `,` and reading the tokens back gives them.
proof fn lemma_tokens_of_join(ts: Seq<Seq<char>>)
    requires
        forall|k: int| 0 <= k < ts.len() ==> plain_token(#[trigger] ts[k]),
    ensures
        info_tokens(join(ts, ","@)) == ts,
    decreases ts.len(),
{
    reveal_strlit(",");
    if ts.len() == 0 {
        assert(info_tokens(join(ts, ","@)) =~= ts);
    } else if ts.len() == 1 {
        let t = ts[0];
        assert(plain_token(t));
        lemma_tokens_single(t, 0, seq![]);
        assert(seq![] + t.skip(0) =~= t);
        assert(info_tokens(join(ts, ","@)) =~= ts);
    } else {
        let x = join(ts.drop_last(), ","@);
        let y = ts.last();
        assert(","@ =~= seq![',']);
        assert(join(ts, ","@) == x + seq![','] + y);
        lemma_tokens_of_join(ts.drop_last());
        lemma_tokens_split(x, y, 0, seq![]);
        lemma_tokens_shift(x + seq![','], y, 0, seq![]);
        assert(x + seq![','] + y =~= (x + seq![',']) + y);
        assert(plain_token(y));
        lemma_tokens_single(y, 0, seq![]);
        assert(seq![] + y.skip(0) =~= y);
        assert(info_tokens(join(ts, ","@)) =~= ts);
    }
}

/// Every token the tokenizer produces is plain.
proof fn lemma_tokens_plain(s: Seq<char>, i: int, cur: Seq<char>)
    requires
        forall|k: int| 0 <= k < cur.len() ==> !is_info_sep(#[trigger] cur[k]),
    ensures
        forall|k: int| 0 <= k < tokens_from(s, i, cur).len() ==> plain_token(#[trigger] tokens_from(s, i, cur)[k]),
    decreases s.len() - i,
{
    let r = tokens_from(s, i, cur);
    if 0 <= i < s.len() {
        if is_info_sep(s[i]) {
            lemma_tokens_plain(s, i + 1, seq![]);
            let rest = tokens_from(s, i + 1, seq![]);
            if cur.len() > 0 {
                assert(plain_token(cur));
                assert(r == seq![cur] + rest);
                assert forall|k: int| 0 <= k < r.len() implies plain_token(#[trigger] r[k]) by {
                    if k > 0 {
                        assert(r[k] == rest[k - 1]);
                    }
                }
            } else {
                assert(r == rest);
            }
        } else {
            let c2 = cur.push(s[i]);
            assert forall|k: int| 0 <= k < c2.len() implies !is_info_sep(#[trigger] c2[k]) by {
                if k < cur.len() {
                    assert(c2[k] == cur[k]);
                }
            }
            lemma_tokens_plain(s, i + 1, c2);
            assert(r == tokens_from(s, i + 1, c2));
        }
    } else if cur.len() > 0 {
        assert(plain_token(cur));
        assert(r == seq![cur]);
    }
}

/// The kept tokens are tokens of the input, and none is `ignore-<target>`.
proof fn lemma_kept_tokens(ts: Seq<Seq<char>>)
    ensures
        forall|k: int| 0 <= k < kept_tokens(ts).len() ==> ts.contains(#[trigger] kept_tokens(ts)[k]) && !is_target_ignore(
            kept_tokens(ts)[k],
        ),
    decreases ts.len(),
{
    if ts.len() > 0 {
        lemma_kept_tokens(ts.drop_last());
        let k0 = kept_tokens(ts.drop_last());
        assert forall|k: int| 0 <= k < kept_tokens(ts).len() implies ts.contains(#[trigger] kept_tokens(ts)[k]) && !is_target_ignore(
            kept_tokens(ts)[k],
        ) by {
            if k < k0.len() {
                let w = choose|j: int| 0 <= j < ts.drop_last().len() && ts.drop_last()[j] == k0[k];
                assert(ts[w] == k0[k]);
            } else {
                assert(ts[ts.len() - 1] == ts.last());
            }
        }
    }
}

/// Every fence opener is made inert: the emitted info string is `text`,
/// or its tokens read back include a bare `ignore` and no
/// `ignore-<target>`, so rustdoc never compiles the fence body.
pub proof fn law_fence_info_inert(info: Seq<char>)
    ensures
        fence_info_spec(info) == "text"@ || {
            let toks = info_tokens(fence_info_spec(info));
            &&& toks.contains("ignore"@)
            &&& forall|k: int| 0 <= k < toks.len() ==> !is_target_ignore(#[trigger] toks[k])
        },
{
    reveal_strlit("ignore");
    reveal_strlit("ignore-");
    reveal_strlit("rust,ignore");
    reveal_strlit("rust");
    reveal_strlit(",");
    let ts = info_tokens(info);
    let k = kept_tokens(ts);
    lemma_tokens_plain(info, 0, seq![]);
    lemma_kept_tokens(ts);
    let ig = "ignore"@;
    assert(plain_token(ig));
    assert(!is_target_ignore(ig));
    assert forall|j: int| 0 <= j < k.len() implies plain_token(#[trigger] k[j]) by {
        let w = choose|w: int| 0 <= w < ts.len() && ts[w] == k[j];
        assert(plain_token(ts[w]));
    }
    if k.len() == 0 {
        if exists|i: int| 0 <= i < ts.len() && is_target_ignore(#[trigger] ts[i]) {
            let parts = seq!["rust"@, ig];
            assert(plain_token("rust"@));
            assert forall|j: int| 0 <= j < parts.len() implies plain_token(#[trigger] parts[j]) by {}
            assert(join(parts, ","@) =~= "rust,ignore"@) by {
                assert(join(parts.drop_last(), ","@) == "rust"@);
            }
            lemma_tokens_of_join(parts);
            assert(parts[1] == ig);
            assert forall|j: int| 0 <= j < parts.len() implies !is_target_ignore(#[trigger] parts[j]) by {
                assert(!starts_with("rust"@, "ignore-"@));
            }
        }
    } else if k.contains(ig) {
        lemma_tokens_of_join(k);
    } else {
        let k2 = k.push(ig);
        assert forall|j: int| 0 <= j < k2.len() implies plain_token(#[trigger] k2[j]) by {
            if j < k.len() {
                assert(k2[j] == k[j]);
            }
        }
        lemma_tokens_of_join(k2);
        assert(k2[k.len() as int] == ig);
        assert forall|j: int| 0 <= j < k2.len() implies !is_target_ignore(#[trigger] k2[j]) by {
            if j < k.len() {
                assert(k2[j] == k[j]);
            }
        }
    }
}


/// The state the walk over `lines[idx..]` ends in, starting from `st`.
pub open spec fn doc_final(lines: Seq<Seq<char>>, idx: int, st: DocState, scope: Seq<char>, tm: Map<Seq<char>, Seq<char>>) -> DocState
    decreases lines.len() - idx,
{
    if idx < 0 || idx >= lines.len() {
        st
    } else {
        doc_final(lines, idx + 1, doc_step(lines, idx, st, scope, tm).1, scope, tm)
    }
}

/// An open fence is one a marker could have opened: a backtick or tilde
/// run of at least three.
pub open spec fn fence_state_ok(st: DocState) -> bool {
    match st.open {
        Some((ch, len)) => (ch == '`' || ch == '~') && len >= 3,
        None => true,
    }
}

proof fn lemma_leading_repeat(c: char, n: nat)
    ensures
        leading_count(repeat_char(c, n), c) == n,
    decreases n,
{
    if n > 0 {
        assert(repeat_char(c, n).drop_first() =~= repeat_char(c, (n - 1) as nat));
        lemma_leading_repeat(c, (n - 1) as nat);
    }
}

/// The closer emitted for an open fence is itself a fence marker that
/// closes it.
proof fn lemma_closer_closes(ch: char, len: nat)
    requires
        ch == '`' || ch == '~',
        len >= 3,
    ensures
        ({
            let c = seq![' '] + repeat_char(ch, len);
            match fence_marker_spec(c) {
                Some(f) => closes_spec(f, (ch, len)) && f.ch == ch && f.len == len,
                None => false,
            }
        }),
{
    let c = seq![' '] + repeat_char(ch, len);
    reveal_with_fuel(indent_from, 3);
    assert(c[1] == ch);
    assert(!is_indented_spec(c));
    assert(c.drop_first() =~= repeat_char(ch, len));
    lemma_leading_repeat(ch, len);
    assert(leading_count(c.drop_first(), ' ') == 0);
    assert(leading_count(c, ' ') == 1);
    let rest = c.skip(1);
    assert(rest =~= repeat_char(ch, len));
    let info = rest.skip(len as int);
    assert(info =~= Seq::<char>::empty());
    assert(!info.contains('`'));
}

proof fn lemma_doc_final(lines: Seq<Seq<char>>, idx: int, st: DocState, scope: Seq<char>, tm: Map<Seq<char>, Seq<char>>)
    requires
        fence_state_ok(st),
    ensures
        fence_state_ok(doc_final(lines, idx, st, scope, tm)),
        match doc_final(lines, idx, st, scope, tm).open {
            Some((ch, len)) => {
                let out = doc_from(lines, idx, st, scope, tm);
                out.len() > 0 && out.last() == seq![' '] + repeat_char(ch, len)
            },
            None => true,
        },
    decreases lines.len() - idx,
{
    if idx < 0 || idx >= lines.len() {
    } else {
        let (em, st2) = doc_step(lines, idx, st, scope, tm);
        assert(fence_state_ok(st2));
        lemma_doc_final(lines, idx + 1, st2, scope, tm);
        let rest = doc_from(lines, idx + 1, st2, scope, tm);
        if rest.len() > 0 {
            assert((em + rest).last() == rest.last());
        }
    }
}

/// Every fence still open when the comment ends is closed: the last line
/// emitted is a marker of the same character whose run is as long as the
/// opener's, so the fence cannot swallow doc text that follows.
pub proof fn law_open_fence_closed(text: Seq<char>, scope: Seq<char>, tm: Map<Seq<char>, Seq<char>>)
    ensures
        ({
            let lines = text_lines(text);
            let fin = doc_final(lines, 0, DocState { in_code: false, open: None }, scope, tm);
            let out = doc_lines_spec(text, scope, tm);
            match fin.open {
                Some(o) => out.len() > 0 && match fence_marker_spec(out.last()) {
                    Some(f) => closes_spec(f, o) && f.ch == o.0 && f.len == o.1,
                    None => false,
                },
                None => true,
            }
        }),
{
    let lines = text_lines(text);
    let init = DocState { in_code: false, open: None };
    lemma_doc_final(lines, 0, init, scope, tm);
    let fin = doc_final(lines, 0, init, scope, tm);
    if let Some(o) = fin.open {
        lemma_closer_closes(o.0, o.1);
    }
}

} // verus!

verus! {

// ── The walk, line by line ──────────────────────────────────────────────────

/// The state the walk is in before `lines[i]`, starting from `st`.
pub open spec fn walk_state(lines: Seq<Seq<char>>, st: DocState, i: int, scope: Seq<char>, tm: Map<Seq<char>, Seq<char>>) -> DocState
    decreases i,
{
    if i <= 0 {
        st
    } else {
        doc_step(lines, i - 1, walk_state(lines, st, i - 1, scope, tm), scope, tm).1
    }
}

/// The lines emitted for `lines[i]`.
pub open spec fn step_lines(lines: Seq<Seq<char>>, st: DocState, i: int, scope: Seq<char>, tm: Map<Seq<char>, Seq<char>>) -> Seq<Seq<char>> {
    doc_step(lines, i, walk_state(lines, st, i, scope, tm), scope, tm).0
}

/// The lines emitted for `lines[..n]`, in order.
pub open spec fn emitted_upto(lines: Seq<Seq<char>>, st: DocState, n: int, scope: Seq<char>, tm: Map<Seq<char>, Seq<char>>) -> Seq<Seq<char>>
    decreases n,
{
    if n <= 0 {
        seq![]
    } else {
        emitted_upto(lines, st, n - 1, scope, tm) + step_lines(lines, st, n - 1, scope, tm)
    }
}

/// The opener line emitted for an author's fence marker.
pub open spec fn fence_opener(f: FenceShape) -> Seq<char> {
    pad_spec(repeat_char(' ', f.indent) + repeat_char(f.ch, f.len) + fence_info_spec(f.info))
}

/// An info string rustdoc never compiles: `text`, or tokens with a bare
/// `ignore` and no `ignore-<target>`.
pub open spec fn info_inert(info: Seq<char>) -> bool {
    info == "text"@ || {
        let toks = info_tokens(info);
        &&& toks.contains("ignore"@)
        &&& forall|k: int| 0 <= k < toks.len() ==> !is_target_ignore(#[trigger] toks[k])
    }
}

proof fn lemma_walk_split(lines: Seq<Seq<char>>, st: DocState, i: int, scope: Seq<char>, tm: Map<Seq<char>, Seq<char>>)
    requires
        0 <= i <= lines.len(),
    ensures
        doc_from(lines, 0, st, scope, tm) == emitted_upto(lines, st, i, scope, tm) + doc_from(lines, i, walk_state(lines, st, i, scope, tm), scope, tm),
    decreases i,
{
    if i == 0 {
        assert(Seq::<Seq<char>>::empty() + doc_from(lines, 0, st, scope, tm) =~= doc_from(lines, 0, st, scope, tm));
    } else {
        lemma_walk_split(lines, st, i - 1, scope, tm);
        let w = walk_state(lines, st, i - 1, scope, tm);
        assert(doc_from(lines, i - 1, w, scope, tm) == step_lines(lines, st, i - 1, scope, tm) + doc_from(lines, i, walk_state(lines, st, i, scope, tm), scope, tm));
        assert(emitted_upto(lines, st, i - 1, scope, tm) + (step_lines(lines, st, i - 1, scope, tm) + doc_from(lines, i, walk_state(lines, st, i, scope, tm), scope, tm))
            =~= emitted_upto(lines, st, i, scope, tm) + doc_from(lines, i, walk_state(lines, st, i, scope, tm), scope, tm));
    }
}

proof fn lemma_walk_final(lines: Seq<Seq<char>>, st: DocState, i: int, scope: Seq<char>, tm: Map<Seq<char>, Seq<char>>)
    requires
        0 <= i <= lines.len(),
    ensures
        doc_final(lines, i, walk_state(lines, st, i, scope, tm), scope, tm) == walk_state(lines, st, lines.len() as int, scope, tm),
    decreases lines.len() - i,
{
    if i < lines.len() {
        lemma_walk_final(lines, st, i + 1, scope, tm);
    }
}

/// Every fence in the rendered comment is inert and closed. The output is
/// the lines emitted line by line followed by the closers for whatever is
/// still open. An author's fence marker met outside a fence is emitted as
/// an opener whose info string rustdoc never compiles, and opens a fence of
/// that character and run length; an indented block outside any fence
/// opens a ```` ```text ```` fence. An open fence stays open with the same
/// character and length until a line that is a marker closing it (same
/// character, a run at least as long, nothing else), which is copied
/// through; and one still open at the end is closed by a final marker of
/// the same character and length, after the closing ```` ``` ```` of a
/// `text` fence still open.
pub proof fn law_doc_fences(text: Seq<char>, scope: Seq<char>, tm: Map<Seq<char>, Seq<char>>)
    ensures
        ({
            let lines = text_lines(text);
            let st0 = DocState { in_code: false, open: None };
            let n = lines.len() as int;
            let fin = walk_state(lines, st0, n, scope, tm);
            let out = doc_lines_spec(text, scope, tm);
            &&& out == emitted_upto(lines, st0, n, scope, tm) + doc_close(fin)
            &&& forall|i: int| 0 <= i < n && (#[trigger] walk_state(lines, st0, i, scope, tm)).open is None
                && fence_marker_spec(lines[i]) is Some ==> {
                let f = fence_marker_spec(lines[i])->0;
                &&& step_lines(lines, st0, i, scope, tm).len() > 0
                &&& step_lines(lines, st0, i, scope, tm).last() == fence_opener(f)
                &&& info_inert(fence_info_spec(f.info))
                &&& walk_state(lines, st0, i + 1, scope, tm).open == Some((f.ch, f.len))
            }
            &&& forall|i: int| 0 <= i < n && (#[trigger] walk_state(lines, st0, i, scope, tm)).open is None
                && !walk_state(lines, st0, i, scope, tm).in_code && fence_marker_spec(lines[i]) is None
                && is_indented_spec(lines[i]) ==> {
                &&& step_lines(lines, st0, i, scope, tm)[0] == " ```text"@
                &&& walk_state(lines, st0, i + 1, scope, tm).in_code
            }
            &&& forall|i: int| 0 <= i < n && (#[trigger] walk_state(lines, st0, i, scope, tm)).open is Some ==> {
                let o = walk_state(lines, st0, i, scope, tm).open->0;
                ||| walk_state(lines, st0, i + 1, scope, tm).open == Some(o)
                ||| {
                    &&& walk_state(lines, st0, i + 1, scope, tm).open is None
                    &&& step_lines(lines, st0, i, scope, tm) == seq![pad_spec(lines[i])]
                    &&& fence_marker_spec(lines[i]) matches Some(g) && closes_spec(g, o)
                }
            }
            &&& fin.in_code ==> doc_close(fin)[0] == " ```"@
            &&& match fin.open {
                Some(o) => out.len() > 0 && match fence_marker_spec(out.last()) {
                    Some(g) => closes_spec(g, o) && g.ch == o.0 && g.len == o.1,
                    None => false,
                },
                None => true,
            }
        }),
{
    let lines = text_lines(text);
    let st0 = DocState { in_code: false, open: None };
    let n = lines.len() as int;
    lemma_walk_split(lines, st0, n, scope, tm);
    lemma_walk_final(lines, st0, 0, scope, tm);
    law_open_fence_closed(text, scope, tm);
    assert forall|i: int| 0 <= i < n && (#[trigger] walk_state(lines, st0, i, scope, tm)).open is None
        && fence_marker_spec(lines[i]) is Some implies {
        let f = fence_marker_spec(lines[i])->0;
        &&& step_lines(lines, st0, i, scope, tm).len() > 0
        &&& step_lines(lines, st0, i, scope, tm).last() == fence_opener(f)
        &&& info_inert(fence_info_spec(f.info))
        &&& walk_state(lines, st0, i + 1, scope, tm).open == Some((f.ch, f.len))
    } by {
        let f = fence_marker_spec(lines[i])->0;
        law_fence_info_inert(f.info);
        assert(!is_indented_spec(lines[i]));
        assert(walk_state(lines, st0, i + 1, scope, tm) == doc_step(lines, i, walk_state(lines, st0, i, scope, tm), scope, tm).1);
    }
    assert forall|i: int| 0 <= i < n && (#[trigger] walk_state(lines, st0, i, scope, tm)).open is None
        && !walk_state(lines, st0, i, scope, tm).in_code && fence_marker_spec(lines[i]) is None
        && is_indented_spec(lines[i]) implies {
        &&& step_lines(lines, st0, i, scope, tm)[0] == " ```text"@
        &&& walk_state(lines, st0, i + 1, scope, tm).in_code
    } by {
        assert(walk_state(lines, st0, i + 1, scope, tm) == doc_step(lines, i, walk_state(lines, st0, i, scope, tm), scope, tm).1);
    }
    assert forall|i: int| 0 <= i < n && (#[trigger] walk_state(lines, st0, i, scope, tm)).open is Some implies {
        let o = walk_state(lines, st0, i, scope, tm).open->0;
        ||| walk_state(lines, st0, i + 1, scope, tm).open == Some(o)
        ||| {
            &&& walk_state(lines, st0, i + 1, scope, tm).open is None
            &&& step_lines(lines, st0, i, scope, tm) == seq![pad_spec(lines[i])]
            &&& fence_marker_spec(lines[i]) matches Some(g) && closes_spec(g, o)
        }
    } by {
        assert(walk_state(lines, st0, i + 1, scope, tm) == doc_step(lines, i, walk_state(lines, st0, i, scope, tm), scope, tm).1);
    }
    assert(doc_from(lines, n, walk_state(lines, st0, n, scope, tm), scope, tm) == doc_close(walk_state(lines, st0, n, scope, tm)));
}

} // verus!
