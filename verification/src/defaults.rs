//! Decoding of C-escaped `default_value` strings of proto `bytes` fields.
//!
//! Follows `google::protobuf::UnescapeCEscapeString`: the simple escapes
//! `\a \b \f \n \r \t \v \\ \? \' \"`, octal escapes of one to three digits,
//! and hex escapes of any positive number of digits whose value must fit a
//! byte. Every malformed escape is an error rather than a panic.

use vstd::prelude::*;
use crate::descriptor::{FieldDescriptorProto, FieldModel, Type};
use crate::error::CodeGenError;
use crate::text::{push_char, push_str};

verus! {

/// Why a C-escaped string could not be decoded.
pub enum EscapeFault {
    /// The input ends with a lone backslash.
    TrailingBackslash,
    /// An octal escape decodes to the given value, more than 255.
    OctalOutOfRange(nat),
    /// `\x` with nothing after it.
    IncompleteHex,
    /// `\x` followed by something that is not a hex digit.
    InvalidHex,
    /// A hex escape decodes to the given (saturated) value, more than 255.
    HexOutOfRange(nat),
    /// A backslash followed by a character that starts no escape.
    InvalidEscape,
}

pub open spec fn is_octal_digit(b: u8) -> bool {
    0x30 <= b <= 0x37
}

pub open spec fn is_hex_digit(b: u8) -> bool {
    (0x30 <= b <= 0x39) || (0x41 <= b <= 0x46) || (0x61 <= b <= 0x66)
}

pub open spec fn hex_value(b: u8) -> nat {
    if 0x30 <= b <= 0x39 {
        (b - 0x30) as nat
    } else if 0x41 <= b <= 0x46 {
        (b - 0x41 + 10) as nat
    } else {
        (b - 0x61 + 10) as nat
    }
}

/// The byte a simple (single-character) escape `\c` stands for.
pub open spec fn simple_escape(c: u8) -> Option<u8> {
    if c == 0x61 {
        Some(0x07u8)
    } else if c == 0x62 {
        Some(0x08u8)
    } else if c == 0x66 {
        Some(0x0Cu8)
    } else if c == 0x6e {
        Some(0x0Au8)
    } else if c == 0x72 {
        Some(0x0Du8)
    } else if c == 0x74 {
        Some(0x09u8)
    } else if c == 0x76 {
        Some(0x0Bu8)
    } else if c == 0x5c {
        Some(0x5Cu8)
    } else if c == 0x3f {
        Some(0x3Fu8)
    } else if c == 0x27 {
        Some(0x27u8)
    } else if c == 0x22 {
        Some(0x22u8)
    } else {
        None
    }
}

/// Reads up to `remaining` octal digits of `b` from `p`, accumulating onto
/// `acc`; returns the value and the index after the last digit read.
pub open spec fn octal_run(b: Seq<u8>, p: int, acc: nat, remaining: nat) -> (nat, int)
    decreases remaining,
{
    if remaining > 0 && 0 <= p < b.len() && is_octal_digit(b[p]) {
        octal_run(b, p + 1, acc * 8 + (b[p] - 0x30) as nat, (remaining - 1) as nat)
    } else {
        (acc, p)
    }
}

pub open spec fn saturate_u32(v: nat) -> nat {
    if v > u32::MAX {
        u32::MAX as nat
    } else {
        v
    }
}

/// Reads every hex digit of `b` from `p` on, accumulating onto `acc` with
/// saturation at `u32::MAX`; returns the value and the index after the run.
pub open spec fn hex_run(b: Seq<u8>, p: int, acc: nat) -> (nat, int)
    decreases b.len() - p,
{
    if 0 <= p < b.len() && is_hex_digit(b[p]) {
        hex_run(b, p + 1, saturate_u32(acc * 16 + hex_value(b[p])))
    } else {
        (acc, p)
    }
}

pub open spec fn prepend(x: u8, r: Result<Seq<u8>, EscapeFault>) -> Result<Seq<u8>, EscapeFault> {
    match r {
        Ok(t) => Ok(seq![x] + t),
        Err(e) => Err(e),
    }
}

/// The decoding of `b[p..]`: the bytes it stands for, or the first fault met
/// reading left to right.
pub open spec fn unescape_from(b: Seq<u8>, p: int) -> Result<Seq<u8>, EscapeFault>
    decreases b.len() - p, 0int,
{
    if p < 0 || p >= b.len() {
        Ok(seq![])
    } else if b[p] != 0x5c {
        prepend(b[p], unescape_from(b, p + 1))
    } else if p + 1 == b.len() {
        Err(EscapeFault::TrailingBackslash)
    } else {
        unescape_escape(b, p + 1)
    }
}

/// The decoding of `b[q..]` where `b[q]` follows a backslash.
pub open spec fn unescape_escape(b: Seq<u8>, q: int) -> Result<Seq<u8>, EscapeFault>
    decreases b.len() - q, 1int,
{
    if q < 1 || q >= b.len() {
        Ok(seq![])
    } else {
        let c = b[q];
        if simple_escape(c) is Some {
            prepend(simple_escape(c)->0, unescape_from(b, q + 1))
        } else if is_octal_digit(c) {
            let (v, next) = octal_run(b, q, 0, 3);
            if v > 255 {
                Err(EscapeFault::OctalOutOfRange(v))
            } else if next <= q || next > b.len() {
                Ok(seq![])
            } else {
                prepend(v as u8, unescape_from(b, next))
            }
        } else if c == 0x78 || c == 0x58 {
            if q + 1 == b.len() {
                Err(EscapeFault::IncompleteHex)
            } else if !is_hex_digit(b[q + 1]) {
                Err(EscapeFault::InvalidHex)
            } else {
                let (v, next) = hex_run(b, q + 1, 0);
                if v > 255 {
                    Err(EscapeFault::HexOutOfRange(v))
                } else if next <= q || next > b.len() {
                    Ok(seq![])
                } else {
                    prepend(v as u8, unescape_from(b, next))
                }
            }
        } else {
            Err(EscapeFault::InvalidEscape)
        }
    }
}

/// The decoding of the UTF-8 bytes of `s`.
pub open spec fn unescape_spec(s: Seq<char>) -> Result<Seq<u8>, EscapeFault> {
    unescape_from(vstd::utf8::encode_utf8(s), 0)
}

pub open spec fn digit_char(d: nat) -> char {
    if d < 10 {
        ((0x30 + d) as u8) as char
    } else {
        ((0x61 + d - 10) as u8) as char
    }
}

/// `n` written in base `base` with lowercase digits, as `{:o}` / `{:x}` do.
pub open spec fn radix_digits(n: nat, base: nat) -> Seq<char>
    decreases n,
{
    if base < 2 || n < base {
        seq![digit_char(n)]
    } else {
        proof {
            vstd::arithmetic::div_mod::lemma_div_decreases(n as int, base as int);
        }
        radix_digits(n / base, base).push(digit_char(n % base))
    }
}

/// What the error message says after the quoted input.
pub open spec fn fault_detail(f: EscapeFault) -> Seq<char> {
    match f {
        EscapeFault::TrailingBackslash => "ends with '\\'"@,
        EscapeFault::OctalOutOfRange(v) => "octal escape \\"@ + radix_digits(v, 8)
            + " out of range (max \\377)"@,
        EscapeFault::IncompleteHex => "incomplete hex value"@,
        EscapeFault::InvalidHex => "invalid hex value"@,
        EscapeFault::HexOutOfRange(v) => "hex escape \\x"@ + radix_digits(v, 16)
            + " out of range (max \\xff)"@,
        EscapeFault::InvalidEscape => "invalid escape"@,
    }
}

/// The full error message for input `s` and fault `f`.
pub open spec fn fault_message(s: Seq<char>, f: EscapeFault) -> Seq<char> {
    "invalid c-escaped default binary value ("@ + s + "): "@ + fault_detail(f)
}

fn push_radix(out: &mut String, n: u32, base: u32)
    requires
        2 <= base <= 16,
    ensures
        final(out)@ == old(out)@ + radix_digits(n as nat, base as nat),
    decreases n,
{
    if n >= base {
        proof {
            vstd::arithmetic::div_mod::lemma_div_decreases(n as int, base as int);
        }
        push_radix(out, n / base, base);
    }
    let d = n % base;
    let c = if d < 10 {
        (0x30u8 + d as u8) as char
    } else {
        (0x61u8 + (d - 10) as u8) as char
    };
    assert(c == digit_char(d as nat));
    push_char(out, c);
    proof {
        if n < base {
            vstd::arithmetic::div_mod::lemma_small_mod(n as nat, base as nat);
        }
        if n >= base {
            assert(old(out)@ + radix_digits(n as nat, base as nat) =~= old(out)@ + radix_digits(
                (n / base) as nat,
                base as nat,
            ) + seq![c]);
        } else {
            assert(old(out)@ + radix_digits(n as nat, base as nat) =~= old(out)@ + seq![c]);
        }
    }
}

fn fault_error(s: &str, f: Ghost<EscapeFault>, detail: &str) -> (e: CodeGenError)
    requires
        fault_detail(f@) == detail@,
    ensures
        e == CodeGenError::Other(e->Other_0),
        e->Other_0@ == fault_message(s@, f@),
{
    let mut m = String::new();
    push_str(&mut m, "invalid c-escaped default binary value (");
    push_str(&mut m, s);
    push_str(&mut m, "): ");
    push_str(&mut m, detail);
    CodeGenError::Other(m)
}

fn fault_error_value(
    s: &str,
    f: Ghost<EscapeFault>,
    head: &str,
    v: u32,
    base: u32,
    tail: &str,
) -> (e: CodeGenError)
    requires
        2 <= base <= 16,
        fault_detail(f@) == head@ + radix_digits(v as nat, base as nat) + tail@,
    ensures
        e == CodeGenError::Other(e->Other_0),
        e->Other_0@ == fault_message(s@, f@),
{
    let mut m = String::new();
    push_str(&mut m, "invalid c-escaped default binary value (");
    push_str(&mut m, s);
    push_str(&mut m, "): ");
    push_str(&mut m, head);
    push_radix(&mut m, v, base);
    push_str(&mut m, tail);
    assert(m@ =~= fault_message(s@, f@));
    CodeGenError::Other(m)
}

} // verus!

verus! {

/// `pre` followed by the decoding `r`, or `r`'s fault.
pub open spec fn with_prefix(pre: Seq<u8>, r: Result<Seq<u8>, EscapeFault>) -> Result<
    Seq<u8>,
    EscapeFault,
> {
    match r {
        Ok(t) => Ok(pre + t),
        Err(e) => Err(e),
    }
}

proof fn lemma_with_prefix_push(pre: Seq<u8>, x: u8, r: Result<Seq<u8>, EscapeFault>)
    ensures
        with_prefix(pre, prepend(x, r)) == with_prefix(pre.push(x), r),
{
    match r {
        Ok(t) => {
            assert(pre + (seq![x] + t) =~= pre.push(x) + t);
        },
        Err(e) => {},
    }
}

fn simple_escape_byte(c: u8) -> (r: Option<u8>)
    ensures
        r == simple_escape(c),
{
    match c {
        0x61 => Some(0x07),
        0x62 => Some(0x08),
        0x66 => Some(0x0C),
        0x6e => Some(0x0A),
        0x72 => Some(0x0D),
        0x74 => Some(0x09),
        0x76 => Some(0x0B),
        0x5c => Some(0x5C),
        0x3f => Some(0x3F),
        0x27 => Some(0x27),
        0x22 => Some(0x22),
        _ => None,
    }
}

fn hex_digit_value(b: u8) -> (r: Option<u32>)
    ensures
        r is Some <==> is_hex_digit(b),
        r matches Some(v) ==> v == hex_value(b) && v < 16,
{
    if 0x30 <= b && b <= 0x39 {
        Some((b - 0x30) as u32)
    } else if 0x41 <= b && b <= 0x46 {
        Some((b - 0x41 + 10) as u32)
    } else if 0x61 <= b && b <= 0x66 {
        Some((b - 0x61 + 10) as u32)
    } else {
        None
    }
}

/// Unescape a C-escaped byte string as used in protobuf `default_value` for
/// bytes fields (after `google::protobuf::UnescapeCEscapeString`).
///
/// Returns the decoded bytes, or an error naming the first malformed escape;
/// never panics.
pub fn unescape_c_escape_string(s: &str) -> (r: Result<Vec<u8>, CodeGenError>)
    ensures
        r is Ok <==> unescape_spec(s@) is Ok,
        r matches Ok(v) ==> unescape_spec(s@) == Ok::<Seq<u8>, EscapeFault>(v@),
        r matches Err(e) ==> unescape_spec(s@) matches Err(f) && e == CodeGenError::Other(
            e->Other_0,
        ) && e->Other_0@ == fault_message(s@, f),
{
    let src = s.as_bytes();
    let len = src.len();
    let ghost b = src@;
    assert(b == vstd::utf8::encode_utf8(s@));
    let mut dst: Vec<u8> = Vec::new();
    let mut p: usize = 0;
    while p < len
        invariant
            b == src@,
            len == b.len(),
            b == vstd::utf8::encode_utf8(s@),
            p <= len,
            with_prefix(dst@, unescape_from(b, p as int)) == unescape_spec(s@),
        decreases len - p,
    {
        if src[p] != 0x5c {
            proof {
                lemma_with_prefix_push(dst@, b[p as int], unescape_from(b, p + 1));
            }
            dst.push(src[p]);
            p += 1;
        } else {
            p += 1;
            if p == len {
                return Err(
                    fault_error(s, Ghost(EscapeFault::TrailingBackslash), "ends with '\\'"),
                );
            }
            assert(unescape_from(b, p - 1) == unescape_escape(b, p as int));
            let c = src[p];
            if let Some(x) = simple_escape_byte(c) {
                proof {
                    lemma_with_prefix_push(dst@, x, unescape_from(b, p + 1));
                }
                dst.push(x);
                p += 1;
            } else if 0x30 <= c && c <= 0x37 {
                let q = p;
                let mut octal: u32 = 0;
                let mut k: u32 = 0;
                while k < 3 && p < len && 0x30 <= src[p] && src[p] <= 0x37
                    invariant
                        b == src@,
                        len == b.len(),
                        q < len,
                        is_octal_digit(b[q as int]),
                        q <= p <= len,
                        k <= 3,
                        p == q + k,
                        k == 0 ==> octal == 0,
                        k == 1 ==> octal < 8,
                        k == 2 ==> octal < 64,
                        k == 3 ==> octal < 512,
                        octal_run(b, q as int, 0, 3) == octal_run(
                            b,
                            p as int,
                            octal as nat,
                            (3 - k) as nat,
                        ),
                    decreases 3 - k,
                {
                    octal = octal * 8 + (src[p] - 0x30) as u32;
                    p += 1;
                    k += 1;
                }
                assert(octal_run(b, q as int, 0, 3) == (octal as nat, p as int));
                assert(p > q);
                if octal > 255 {
                    return Err(
                        fault_error_value(
                            s,
                            Ghost(EscapeFault::OctalOutOfRange(octal as nat)),
                            "octal escape \\",
                            octal,
                            8,
                            " out of range (max \\377)",
                        ),
                    );
                }
                proof {
                    lemma_with_prefix_push(dst@, octal as u8, unescape_from(b, p as int));
                }
                dst.push(octal as u8);
            } else if c == 0x78 || c == 0x58 {
                p += 1;
                if p == len {
                    return Err(
                        fault_error(s, Ghost(EscapeFault::IncompleteHex), "incomplete hex value"),
                    );
                }
                if hex_digit_value(src[p]).is_none() {
                    return Err(
                        fault_error(s, Ghost(EscapeFault::InvalidHex), "invalid hex value"),
                    );
                }
                let q = p;
                let mut hex: u32 = 0;
                while p < len && hex_digit_value(src[p]).is_some()
                    invariant
                        b == src@,
                        len == b.len(),
                        q <= p <= len,
                        hex_run(b, q as int, 0) == hex_run(b, p as int, hex as nat),
                    decreases len - p,
                {
                    let digit = match hex_digit_value(src[p]) {
                        Some(d) => d,
                        None => 0,
                    };
                    let ghost prev = hex as nat;
                    let scaled: u32 = if hex > u32::MAX / 16 {
                        u32::MAX
                    } else {
                        hex * 16
                    };
                    hex = if scaled > u32::MAX - digit {
                        u32::MAX
                    } else {
                        scaled + digit
                    };
                    assert(hex as nat == saturate_u32(prev * 16 + hex_value(b[p as int])));
                    p += 1;
                }
                assert(hex_run(b, q as int, 0) == (hex as nat, p as int));
                if hex > 255 {
                    return Err(
                        fault_error_value(
                            s,
                            Ghost(EscapeFault::HexOutOfRange(hex as nat)),
                            "hex escape \\x",
                            hex,
                            16,
                            " out of range (max \\xff)",
                        ),
                    );
                }
                proof {
                    lemma_with_prefix_push(dst@, hex as u8, unescape_from(b, p as int));
                }
                dst.push(hex as u8);
            } else {
                return Err(fault_error(s, Ghost(EscapeFault::InvalidEscape), "invalid escape"));
            }
        }
    }
    assert(dst@ + Seq::<u8>::empty() =~= dst@);
    Ok(dst)
}

} // verus!

verus! {

/// Bytes without a backslash decode to themselves.
pub proof fn law_plain_bytes_unchanged(b: Seq<u8>, p: int)
    requires
        0 <= p <= b.len(),
        forall|i: int| 0 <= i < b.len() ==> b[i] != 0x5c,
    ensures
        unescape_from(b, p) == Ok::<Seq<u8>, EscapeFault>(b.skip(p)),
    decreases b.len() - p,
{
    if p < b.len() {
        law_plain_bytes_unchanged(b, p + 1);
        assert(seq![b[p]] + b.skip(p + 1) =~= b.skip(p));
    } else {
        assert(b.skip(p) =~= Seq::<u8>::empty());
    }
}

proof fn lemma_octal_run_advances(b: Seq<u8>, p: int, acc: nat, remaining: nat)
    ensures
        p <= octal_run(b, p, acc, remaining).1,
        0 <= p ==> octal_run(b, p, acc, remaining).1 <= b.len() || octal_run(b, p, acc, remaining).1 == p,
    decreases remaining,
{
    if remaining > 0 && 0 <= p < b.len() && is_octal_digit(b[p]) {
        lemma_octal_run_advances(b, p + 1, acc * 8 + (b[p] - 0x30) as nat, (remaining - 1) as nat);
    }
}

proof fn lemma_hex_run_advances(b: Seq<u8>, p: int, acc: nat)
    ensures
        p <= hex_run(b, p, acc).1,
    decreases b.len() - p,
{
    if 0 <= p < b.len() && is_hex_digit(b[p]) {
        lemma_hex_run_advances(b, p + 1, saturate_u32(acc * 16 + hex_value(b[p])));
    }
}

/// Decoding never produces more bytes than it reads: every escape reads at
/// least two bytes and stands for one.
pub proof fn law_decoded_not_longer(b: Seq<u8>, p: int)
    requires
        0 <= p <= b.len(),
    ensures
        unescape_from(b, p) matches Ok(t) ==> t.len() <= b.len() - p,
    decreases b.len() - p, 0int,
{
    if 0 <= p < b.len() {
        if b[p] != 0x5c {
            law_decoded_not_longer(b, p + 1);
        } else if p + 1 < b.len() {
            lemma_escape_not_longer(b, p + 1);
        }
    }
}

proof fn lemma_escape_not_longer(b: Seq<u8>, q: int)
    requires
        1 <= q < b.len(),
    ensures
        unescape_escape(b, q) matches Ok(t) ==> t.len() <= b.len() - q,
    decreases b.len() - q, 1int,
{
    let c = b[q];
    if simple_escape(c) is Some {
        law_decoded_not_longer(b, q + 1);
    } else if is_octal_digit(c) {
        let (v, next) = octal_run(b, q, 0, 3);
        lemma_octal_run_advances(b, q, 0, 3);
        if v <= 255 && q < next <= b.len() {
            law_decoded_not_longer(b, next);
        }
    } else if (c == 0x78 || c == 0x58) && q + 1 < b.len() && is_hex_digit(b[q + 1]) {
        let (v, next) = hex_run(b, q + 1, 0);
        lemma_hex_run_advances(b, q + 1, 0);
        if v <= 255 && q < next <= b.len() {
            law_decoded_not_longer(b, next);
        }
    }
}

} // verus!

verus! {

// ── The escape grammar, stated token by token ──────────────────────────────

/// The value of the digits `s` read left to right in `base`, onto `acc`.
pub open spec fn digit_fold(acc: nat, s: Seq<u8>, base: nat) -> nat
    decreases s.len(),
{
    if s.len() == 0 {
        acc
    } else {
        digit_fold(acc * base + hex_value(s[0]), s.drop_first(), base)
    }
}

/// `b[p..e]` is one token of the escape grammar and stands for the byte `v`:
/// a byte that is not a backslash; a backslash and a simple escape letter;
/// a backslash and the longest run of one to three octal digits; or a
/// backslash, `x` or `X`, and the longest run of hex digits (at least one).
/// A numeric escape stands for a byte only when its value is at most 255.
pub open spec fn escape_token(b: Seq<u8>, p: int, e: int, v: u8) -> bool {
    &&& 0 <= p < e <= b.len()
    &&& {
        ||| b[p] != 0x5c && e == p + 1 && v == b[p]
        ||| b[p] == 0x5c && e == p + 2 && simple_escape(b[p + 1]) == Some(v)
        ||| b[p] == 0x5c && p + 2 <= e <= p + 4
            && (forall|m: int| p + 1 <= m < e ==> is_octal_digit(#[trigger] b[m]))
            && (e == p + 4 || e == b.len() || !is_octal_digit(b[e]))
            && digit_fold(0, b.subrange(p + 1, e), 8) == v
        ||| b[p] == 0x5c && (b[p + 1] == 0x78 || b[p + 1] == 0x58) && p + 3 <= e
            && (forall|m: int| p + 2 <= m < e ==> is_hex_digit(#[trigger] b[m]))
            && (e == b.len() || !is_hex_digit(b[e]))
            && digit_fold(0, b.subrange(p + 2, e), 16) == v
    }
}

/// `b[p..]` splits left to right into the tokens cut at `cuts`, standing
/// for the bytes `vals`.
pub open spec fn splits_into(b: Seq<u8>, p: int, cuts: Seq<int>, vals: Seq<u8>) -> bool {
    &&& cuts.len() == vals.len() + 1
    &&& cuts[0] == p
    &&& cuts.last() == b.len()
    &&& forall|i: int| 0 <= i < vals.len() ==> #[trigger] escape_token(b, cuts[i], cuts[i + 1], vals[i])
}

proof fn lemma_fold_grows(acc: nat, s: Seq<u8>, base: nat)
    requires
        base >= 1,
    ensures
        digit_fold(acc, s, base) >= acc,
    decreases s.len(),
{
    if s.len() > 0 {
        assert(acc * base >= acc) by (nonlinear_arith)
            requires
                base >= 1,
        ;
        lemma_fold_grows(acc * base + hex_value(s[0]), s.drop_first(), base);
    }
}

proof fn lemma_octal_run_shape(b: Seq<u8>, q: int, acc: nat, rem: nat)
    requires
        0 <= q <= b.len(),
    ensures
        ({
            let (v, next) = octal_run(b, q, acc, rem);
            &&& q <= next <= b.len()
            &&& next <= q + rem
            &&& (forall|m: int| q <= m < next ==> is_octal_digit(#[trigger] b[m]))
            &&& (next == q + rem || next == b.len() || !is_octal_digit(b[next]))
            &&& v == digit_fold(acc, b.subrange(q, next), 8)
        }),
    decreases rem,
{
    if rem > 0 && q < b.len() && is_octal_digit(b[q]) {
        let acc2 = acc * 8 + (b[q] - 0x30) as nat;
        lemma_octal_run_shape(b, q + 1, acc2, (rem - 1) as nat);
        let next = octal_run(b, q, acc, rem).1;
        assert(b.subrange(q, next).drop_first() =~= b.subrange(q + 1, next));
        assert(hex_value(b[q]) == (b[q] - 0x30) as nat);
    } else {
        assert(b.subrange(q, q) =~= Seq::<u8>::empty());
    }
}

proof fn lemma_hex_run_shape(b: Seq<u8>, q: int, acc: nat)
    requires
        0 <= q <= b.len(),
        acc <= u32::MAX,
    ensures
        ({
            let (v, next) = hex_run(b, q, acc);
            let full = digit_fold(acc, b.subrange(q, next), 16);
            &&& q <= next <= b.len()
            &&& (forall|m: int| q <= m < next ==> is_hex_digit(#[trigger] b[m]))
            &&& (next == b.len() || !is_hex_digit(b[next]))
            &&& v == if full > u32::MAX { u32::MAX as nat } else { full }
        }),
    decreases b.len() - q,
{
    if q < b.len() && is_hex_digit(b[q]) {
        let raw = acc * 16 + hex_value(b[q]);
        let acc2 = saturate_u32(raw);
        lemma_hex_run_shape(b, q + 1, acc2);
        let next = hex_run(b, q, acc).1;
        let rest = b.subrange(q + 1, next);
        assert(b.subrange(q, next).drop_first() =~= rest);
        assert(b.subrange(q, next)[0] == b[q]);
        if raw > u32::MAX {
            lemma_fold_grows(raw, rest, 16);
            lemma_fold_grows(acc2, rest, 16);
        }
    } else {
        assert(b.subrange(q, q) =~= Seq::<u8>::empty());
    }
}

/// Reading one token at `p` leaves the decoding of what follows it.
proof fn lemma_token_step(b: Seq<u8>, p: int, e: int, v: u8)
    requires
        escape_token(b, p, e, v),
    ensures
        unescape_from(b, p) == prepend(v, unescape_from(b, e)),
{
    if b[p] == 0x5c {
        let q = p + 1;
        let c = b[q];
        assert(unescape_from(b, p) == unescape_escape(b, q));
        if simple_escape(c) is Some {
        } else if is_octal_digit(c) {
            lemma_octal_run_shape(b, q, 0, 3);
            let (ov, next) = octal_run(b, q, 0, 3);
            if next < e {
                assert(is_octal_digit(b[next]));
            }
            if e < next {
                assert(is_octal_digit(b[e]));
            }
            assert(next == e);
            assert(ov == v as nat);
            assert(ov as u8 == v);
        } else {
            assert(c == 0x78 || c == 0x58);
            assert(is_hex_digit(b[q + 1]));
            lemma_hex_run_shape(b, q + 1, 0);
            let (hv, next) = hex_run(b, q + 1, 0);
            if next < e {
                assert(is_hex_digit(b[next]));
            }
            if e < next {
                assert(is_hex_digit(b[e]));
            }
            assert(next == e);
            assert(hv == v as nat);
            assert(hv as u8 == v);
        }
    }
}

/// Where the decoding of `b[p..]` succeeds and something is left, a token
/// starts at `p`.
proof fn lemma_token_exists(b: Seq<u8>, p: int)
    requires
        0 <= p < b.len(),
        unescape_from(b, p) is Ok,
    ensures
        exists|e: int, v: u8| #[trigger] escape_token(b, p, e, v),
{
    if b[p] != 0x5c {
        assert(escape_token(b, p, p + 1, b[p]));
    } else {
        let q = p + 1;
        assert(q < b.len());
        let c = b[q];
        assert(unescape_from(b, p) == unescape_escape(b, q));
        if simple_escape(c) is Some {
            assert(escape_token(b, p, p + 2, simple_escape(c)->0));
        } else if is_octal_digit(c) {
            lemma_octal_run_shape(b, q, 0, 3);
            let (ov, next) = octal_run(b, q, 0, 3);
            assert(ov <= 255);
            assert((ov as u8) as nat == ov);
            assert(escape_token(b, p, next, ov as u8));
        } else {
            assert(c == 0x78 || c == 0x58);
            assert(q + 1 < b.len() && is_hex_digit(b[q + 1]));
            lemma_hex_run_shape(b, q + 1, 0);
            let (hv, next) = hex_run(b, q + 1, 0);
            assert(hv <= 255);
            assert((hv as u8) as nat == hv);
            assert(escape_token(b, p, next, hv as u8));
        }
    }
}

proof fn lemma_split_decodes(b: Seq<u8>, p: int, cuts: Seq<int>, vals: Seq<u8>)
    requires
        splits_into(b, p, cuts, vals),
    ensures
        unescape_from(b, p) == Ok::<Seq<u8>, EscapeFault>(vals),
    decreases vals.len(),
{
    if vals.len() == 0 {
        assert(vals =~= Seq::<u8>::empty());
        assert(p == b.len());
    } else {
        assert(escape_token(b, cuts[0], cuts[1], vals[0]));
        lemma_token_step(b, p, cuts[1], vals[0]);
        let c2 = cuts.drop_first();
        let v2 = vals.drop_first();
        assert forall|i: int| 0 <= i < v2.len() implies #[trigger] escape_token(b, c2[i], c2[i + 1], v2[i]) by {
            let j = i + 1;
            assert(escape_token(b, cuts[j], cuts[j + 1], vals[j]));
        }
        assert(c2.last() == cuts.last());
        assert(splits_into(b, cuts[1], c2, v2));
        lemma_split_decodes(b, cuts[1], c2, v2);
        assert(seq![vals[0]] + v2 =~= vals);
    }
}

proof fn lemma_decode_splits(b: Seq<u8>, p: int) -> (r: (Seq<int>, Seq<u8>))
    requires
        0 <= p <= b.len(),
        unescape_from(b, p) is Ok,
    ensures
        splits_into(b, p, r.0, r.1),
    decreases b.len() - p,
{
    if p == b.len() {
        (seq![p], seq![])
    } else {
        lemma_token_exists(b, p);
        let (e, v) = choose|e: int, v: u8| #[trigger] escape_token(b, p, e, v);
        lemma_token_step(b, p, e, v);
        let (c2, v2) = lemma_decode_splits(b, e);
        let cuts = seq![p] + c2;
        let vals = seq![v] + v2;
        assert forall|i: int| 0 <= i < vals.len() implies #[trigger] escape_token(b, cuts[i], cuts[i + 1], vals[i]) by {
            if i > 0 {
                let j = i - 1;
                assert(escape_token(b, c2[j], c2[j + 1], v2[j]));
            }
        }
        (cuts, vals)
    }
}

/// The escape grammar of protobuf byte defaults: decoding succeeds exactly
/// when the UTF-8 bytes of `s` split, left to right, into tokens of the
/// grammar (plain bytes, simple escapes, octal escapes of one to three
/// digits, hex escapes of one or more digits, each numeric value at most
/// 255), and then yields the bytes those tokens stand for.
pub proof fn law_unescape_grammar(s: Seq<char>)
    ensures
        ({
            let b = vstd::utf8::encode_utf8(s);
            &&& (unescape_spec(s) is Ok <==> exists|cuts: Seq<int>, vals: Seq<u8>| #[trigger] splits_into(b, 0, cuts, vals))
            &&& forall|cuts: Seq<int>, vals: Seq<u8>| #[trigger] splits_into(b, 0, cuts, vals)
                ==> unescape_spec(s) == Ok::<Seq<u8>, EscapeFault>(vals)
        }),
{
    let b = vstd::utf8::encode_utf8(s);
    if unescape_spec(s) is Ok {
        let (cuts, vals) = lemma_decode_splits(b, 0);
        assert(splits_into(b, 0, cuts, vals));
    }
    assert forall|cuts: Seq<int>, vals: Seq<u8>| #[trigger] splits_into(b, 0, cuts, vals)
        implies unescape_spec(s) == Ok::<Seq<u8>, EscapeFault>(vals) by {
        lemma_split_decodes(b, 0, cuts, vals);
    }
}

// ── Integer defaults, as `str::parse` reads them ────────────────────────────

pub open spec fn is_decimal_digit(c: char) -> bool {
    '0' <= c && c <= '9'
}

/// One or more ASCII decimal digits.
pub open spec fn all_digits(s: Seq<char>) -> bool {
    s.len() > 0 && forall|i: int| 0 <= i < s.len() ==> is_decimal_digit(#[trigger] s[i])
}

/// The value of a run of decimal digits.
pub open spec fn digits_value(s: Seq<char>) -> int
    decreases s.len(),
{
    if s.len() == 0 {
        0
    } else {
        digits_value(s.drop_last()) * 10 + ((s.last() as int) - 48)
    }
}

/// The integer `s` spells for `str::parse`: an optional `+` (or, for a
/// signed type, `-`) followed by one or more ASCII digits, and nothing
/// else; before the range check.
pub open spec fn decimal_of(s: Seq<char>, signed: bool) -> Option<int> {
    if s.len() > 0 && s[0] == '+' {
        if all_digits(s.skip(1)) {
            Some(digits_value(s.skip(1)))
        } else {
            None
        }
    } else if signed && s.len() > 0 && s[0] == '-' {
        if all_digits(s.skip(1)) {
            Some(-digits_value(s.skip(1)))
        } else {
            None
        }
    } else if all_digits(s) {
        Some(digits_value(s))
    } else {
        None
    }
}

/// `v` when it lies in `[lo, hi]`.
pub open spec fn within(v: Option<int>, lo: int, hi: int) -> Option<int> {
    match v {
        Some(x) => if lo <= x <= hi {
            Some(x)
        } else {
            None
        },
        None => None,
    }
}

proof fn lemma_digits_grow(s: Seq<char>, i: int)
    requires
        0 <= i <= s.len(),
        forall|k: int| 0 <= k < s.len() ==> is_decimal_digit(#[trigger] s[k]),
    ensures
        0 <= digits_value(s.take(i)) <= digits_value(s),
    decreases s.len() - i,
{
    if i < s.len() {
        lemma_digits_grow(s, i + 1);
        assert(s.take(i + 1).drop_last() =~= s.take(i));
        lemma_digits_nonneg(s.take(i));
    } else {
        assert(s.take(i) =~= s);
        lemma_digits_nonneg(s);
    }
}

proof fn lemma_digits_nonneg(s: Seq<char>)
    requires
        forall|k: int| 0 <= k < s.len() ==> is_decimal_digit(#[trigger] s[k]),
    ensures
        digits_value(s) >= 0,
    decreases s.len(),
{
    if s.len() > 0 {
        lemma_digits_nonneg(s.drop_last());
        assert(is_decimal_digit(s[s.len() - 1]));
    }
}

/// `within(decimal_of(s, signed), lo, hi)`, read digit by digit: the
/// integer `str::parse` reads from `s` for a type whose range is `lo..=hi`.
fn parse_decimal(s: &str, signed: bool, lo: i128, hi: i128) -> (r: Option<i128>)
    requires
        i64::MIN <= lo <= 0,
        0 <= hi <= u64::MAX,
    ensures
        r matches Some(v) ==> within(decimal_of(s@, signed), lo as int, hi as int) == Some(v as int),
        r is None ==> within(decimal_of(s@, signed), lo as int, hi as int) is None,
{
    let c = crate::text::chars_of(s);
    let cap: u128 = 0x1_0000_0000_0000_0000;
    let mut start: usize = 0;
    let mut neg = false;
    if c.len() > 0 && c[0] == '+' {
        start = 1;
    } else if signed && c.len() > 0 && c[0] == '-' {
        start = 1;
        neg = true;
    }
    if start >= c.len() {
        proof {
            assert(c@.skip(start as int).len() == 0);
        }
        return None;
    }
    let ghost body = c@.skip(start as int);
    proof {
        if start == 0 {
            assert(body =~= c@);
        }
        assert(decimal_of(s@, signed) == if all_digits(body) {
            Some(if neg { -digits_value(body) } else { digits_value(body) })
        } else {
            None::<int>
        });
    }
    let mut acc: u128 = 0;
    let mut big = false;
    let mut i: usize = start;
    while i < c.len()
        invariant
            start <= i <= c@.len(),
            start < c@.len(),
            body == c@.skip(start as int),
            cap == 0x1_0000_0000_0000_0000u128,
            decimal_of(s@, signed) == if all_digits(body) {
                Some(if neg { -digits_value(body) } else { digits_value(body) })
            } else {
                None::<int>
            },
            i64::MIN <= lo <= 0,
            0 <= hi <= u64::MAX,
            forall|k: int| 0 <= k < i - start ==> is_decimal_digit(#[trigger] body[k]),
            big ==> digits_value(body.take(i - start)) > cap,
            !big ==> acc == digits_value(body.take(i - start)) && acc <= cap,
        decreases c@.len() - i,
    {
        let ch = c[i];
        if !('0' <= ch && ch <= '9') {
            proof {
                assert(body[i - start] == ch);
                assert(!all_digits(body));
            }
            return None;
        }
        proof {
            assert(body[i - start] == ch);
            assert(body.take(i - start + 1).drop_last() =~= body.take(i - start));
            assert(body.take(i - start + 1).last() == ch);
        }
        let d: u128 = (ch as u32 - 48) as u128;
        if !big {
            acc = acc * 10 + d;
            if acc > cap {
                big = true;
            }
        } else {
            proof {
                lemma_digits_nonneg(body.take(i - start));
                assert(digits_value(body.take(i - start + 1)) == digits_value(body.take(i - start)) * 10 + d);
            }
        }
        i = i + 1;
    }
    proof {
        assert(body.take(i - start) =~= body);
        assert(all_digits(body));
    }
    if big {
        return None;
    }
    let v: i128 = if neg { -(acc as i128) } else { acc as i128 };
    if lo <= v && v <= hi {
        Some(v)
    } else {
        None
    }
}

/// `str::parse::<i32>`: an optional `+` or `-` and one or more ASCII
/// digits, in range.
fn parse_i32(s: &str) -> (r: Option<i32>)
    ensures
        r is Some <==> within(decimal_of(s@, true), i32::MIN as int, i32::MAX as int) is Some,
        r matches Some(v) ==> within(decimal_of(s@, true), i32::MIN as int, i32::MAX as int) == Some(v as int),
{
    match parse_decimal(s, true, i32::MIN as i128, i32::MAX as i128) {
        Some(v) => Some(v as i32),
        None => None,
    }
}

/// `str::parse::<i64>`.
fn parse_i64(s: &str) -> (r: Option<i64>)
    ensures
        r is Some <==> within(decimal_of(s@, true), i64::MIN as int, i64::MAX as int) is Some,
        r matches Some(v) ==> within(decimal_of(s@, true), i64::MIN as int, i64::MAX as int) == Some(v as int),
{
    match parse_decimal(s, true, i64::MIN as i128, i64::MAX as i128) {
        Some(v) => Some(v as i64),
        None => None,
    }
}

/// `str::parse::<u32>`: an optional `+` and one or more ASCII digits (a
/// `-` is an invalid digit), in range.
fn parse_u32(s: &str) -> (r: Option<u32>)
    ensures
        r is Some <==> within(decimal_of(s@, false), 0, u32::MAX as int) is Some,
        r matches Some(v) ==> within(decimal_of(s@, false), 0, u32::MAX as int) == Some(v as int),
{
    match parse_decimal(s, false, 0, u32::MAX as i128) {
        Some(v) => Some(v as u32),
        None => None,
    }
}

/// `str::parse::<u64>`.
fn parse_u64(s: &str) -> (r: Option<u64>)
    ensures
        r is Some <==> within(decimal_of(s@, false), 0, u64::MAX as int) is Some,
        r matches Some(v) ==> within(decimal_of(s@, false), 0, u64::MAX as int) == Some(v as int),
{
    match parse_decimal(s, false, 0, u64::MAX as i128) {
        Some(v) => Some(v as u64),
        None => None,
    }
}

// ── The literal a default stands for ────────────────────────────────────────

/// The Rust literal a proto `default_value` stands for.
#[derive(Debug, PartialEq)]
pub enum DefaultLiteral {
    Bool(bool),
    I32(i32),
    U32(u32),
    I64(i64),
    U64(u64),
    /// A `float` (`false`) or `double` (`true`) default, as written; its
    /// special names and decimal form are read by the caller.
    Float(String, bool),
    /// A `string` default: the raw text.
    Text(String),
    /// A `bytes` default, C-escapes decoded.
    Bytes(Vec<u8>),
    /// An enum default: the name of the enum value.
    EnumValue(String),
}

/// [`DefaultLiteral`] over texts and byte sequences.
pub enum LiteralModel {
    Bool(bool),
    I32(i32),
    U32(u32),
    I64(i64),
    U64(u64),
    Float(Seq<char>, bool),
    Text(Seq<char>),
    Bytes(Seq<u8>),
    EnumValue(Seq<char>),
}

impl View for DefaultLiteral {
    type V = LiteralModel;

    open spec fn view(&self) -> LiteralModel {
        match self {
            DefaultLiteral::Bool(b) => LiteralModel::Bool(*b),
            DefaultLiteral::I32(v) => LiteralModel::I32(*v),
            DefaultLiteral::U32(v) => LiteralModel::U32(*v),
            DefaultLiteral::I64(v) => LiteralModel::I64(*v),
            DefaultLiteral::U64(v) => LiteralModel::U64(*v),
            DefaultLiteral::Float(s, d) => LiteralModel::Float(s@, *d),
            DefaultLiteral::Text(s) => LiteralModel::Text(s@),
            DefaultLiteral::Bytes(b) => LiteralModel::Bytes(b@),
            DefaultLiteral::EnumValue(s) => LiteralModel::EnumValue(s@),
        }
    }
}

/// The views of a default's result.
pub open spec fn literal_result_view(r: Result<Option<DefaultLiteral>, CodeGenError>) -> Result<Option<LiteralModel>, crate::error::CodeGenErrorModel> {
    match r {
        Ok(Some(l)) => Ok(Some(l@)),
        Ok(None) => Ok(None),
        Err(e) => Err(e@),
    }
}

/// `field '<name>': invalid <kind> default: '<text>'`.
pub open spec fn invalid_default_message(field_name: Seq<char>, kind: Seq<char>, text: Seq<char>) -> Seq<char> {
    "field '"@ + field_name + "': invalid "@ + kind + " default: '"@ + text + "'"@
}

/// An integer default of the given kind, or the error naming it.
pub open spec fn int_literal(
    v: Option<int>,
    lit: LiteralModel,
    field_name: Seq<char>,
    kind: Seq<char>,
    text: Seq<char>,
) -> Result<Option<LiteralModel>, crate::error::CodeGenErrorModel> {
    if v is Some {
        Ok(Some(lit))
    } else {
        Err(crate::error::CodeGenErrorModel::Other(invalid_default_message(field_name, kind, text)))
    }
}

/// The literal a field's `default_value` stands for: none when the default
/// is absent or empty, or the field does not have explicit presence (proto3
/// implicit fields ignore it); otherwise read by the field's type (absent:
/// `double`), an error naming a malformed one. Message and group fields
/// have none.
pub open spec fn default_literal_spec(f: FieldModel, explicit_presence: bool) -> Result<Option<LiteralModel>, crate::error::CodeGenErrorModel> {
    match f.default_value {
        None => Ok(None),
        Some(s) => if s.len() == 0 || !explicit_presence {
            Ok(None)
        } else {
            let name = match f.name {
                Some(n) => n,
                None => "<unknown>"@,
            };
            let ty = match f.ty {
                Some(t) => t,
                None => Type::TYPE_DOUBLE,
            };
            match ty {
                Type::TYPE_BOOL => if s == "true"@ {
                    Ok(Some(LiteralModel::Bool(true)))
                } else if s == "false"@ {
                    Ok(Some(LiteralModel::Bool(false)))
                } else {
                    Err(crate::error::CodeGenErrorModel::Other(invalid_default_message(name, "bool"@, s)))
                },
                Type::TYPE_INT32 | Type::TYPE_SINT32 | Type::TYPE_SFIXED32 => {
                    let v = within(decimal_of(s, true), i32::MIN as int, i32::MAX as int);
                    int_literal(v, LiteralModel::I32(v->0 as i32), name, "i32"@, s)
                },
                Type::TYPE_UINT32 | Type::TYPE_FIXED32 => {
                    let v = within(decimal_of(s, false), 0, u32::MAX as int);
                    int_literal(v, LiteralModel::U32(v->0 as u32), name, "u32"@, s)
                },
                Type::TYPE_INT64 | Type::TYPE_SINT64 | Type::TYPE_SFIXED64 => {
                    let v = within(decimal_of(s, true), i64::MIN as int, i64::MAX as int);
                    int_literal(v, LiteralModel::I64(v->0 as i64), name, "i64"@, s)
                },
                Type::TYPE_UINT64 | Type::TYPE_FIXED64 => {
                    let v = within(decimal_of(s, false), 0, u64::MAX as int);
                    int_literal(v, LiteralModel::U64(v->0 as u64), name, "u64"@, s)
                },
                Type::TYPE_FLOAT => Ok(Some(LiteralModel::Float(s, false))),
                Type::TYPE_DOUBLE => Ok(Some(LiteralModel::Float(s, true))),
                Type::TYPE_STRING => Ok(Some(LiteralModel::Text(s))),
                Type::TYPE_BYTES => match unescape_spec(s) {
                    Ok(b) => Ok(Some(LiteralModel::Bytes(b))),
                    Err(fault) => Err(crate::error::CodeGenErrorModel::Other(fault_message(s, fault))),
                },
                Type::TYPE_ENUM => if f.type_ref is None {
                    Err(crate::error::CodeGenErrorModel::MissingField("field.type_name"@))
                } else {
                    Ok(Some(LiteralModel::EnumValue(s)))
                },
                _ => Ok(None),
            }
        },
    }
}

/// `field '<name>': invalid <kind> default: '<text>'`, as an error.
fn invalid_default(field_name: &str, kind: &str, text: &str) -> (e: CodeGenError)
    ensures
        e@ == crate::error::CodeGenErrorModel::Other(invalid_default_message(field_name@, kind@, text@)),
{
    let mut m = String::new();
    push_str(&mut m, "field '");
    push_str(&mut m, field_name);
    push_str(&mut m, "': invalid ");
    push_str(&mut m, kind);
    push_str(&mut m, " default: '");
    push_str(&mut m, text);
    push_str(&mut m, "'");
    proof {
        assert(m@ =~= invalid_default_message(field_name@, kind@, text@));
    }
    CodeGenError::Other(m)
}

/// Read a field's proto `default_value` into the literal it stands for.
///
/// `explicit_presence` is whether the field has explicit presence (proto2,
/// editions `EXPLICIT` or `LEGACY_REQUIRED`); other fields ignore their
/// `default_value`. Returns `Ok(None)` when there is no default to emit,
/// and an error for a malformed one.
pub fn default_literal(field: &FieldDescriptorProto, explicit_presence: bool) -> (r: Result<Option<DefaultLiteral>, CodeGenError>)
    ensures
        literal_result_view(r) == default_literal_spec(field.model(), explicit_presence),
{
    let s: &str = match &field.default_value {
        Some(s) => s.as_str(),
        None => {
            return Ok(None);
        },
    };
    if s.unicode_len() == 0 || !explicit_presence {
        return Ok(None);
    }
    let field_name: &str = match &field.name {
        Some(n) => n.as_str(),
        None => "<unknown>",
    };
    let ty = match field.field_type {
        Some(t) => t,
        None => Type::TYPE_DOUBLE,
    };
    proof {
        reveal_strlit("true");
        reveal_strlit("false");
    }
    match ty {
        Type::TYPE_BOOL => {
            let c = crate::text::chars_of(s);
            let t = crate::text::chars_of("true");
            let f = crate::text::chars_of("false");
            if crate::string_map::chars_eq(c.as_slice(), t.as_slice()) {
                Ok(Some(DefaultLiteral::Bool(true)))
            } else if crate::string_map::chars_eq(c.as_slice(), f.as_slice()) {
                Ok(Some(DefaultLiteral::Bool(false)))
            } else {
                Err(invalid_default(field_name, "bool", s))
            }
        },
        Type::TYPE_INT32 | Type::TYPE_SINT32 | Type::TYPE_SFIXED32 => match parse_i32(s) {
            Some(v) => Ok(Some(DefaultLiteral::I32(v))),
            None => Err(invalid_default(field_name, "i32", s)),
        },
        Type::TYPE_UINT32 | Type::TYPE_FIXED32 => match parse_u32(s) {
            Some(v) => Ok(Some(DefaultLiteral::U32(v))),
            None => Err(invalid_default(field_name, "u32", s)),
        },
        Type::TYPE_INT64 | Type::TYPE_SINT64 | Type::TYPE_SFIXED64 => match parse_i64(s) {
            Some(v) => Ok(Some(DefaultLiteral::I64(v))),
            None => Err(invalid_default(field_name, "i64", s)),
        },
        Type::TYPE_UINT64 | Type::TYPE_FIXED64 => match parse_u64(s) {
            Some(v) => Ok(Some(DefaultLiteral::U64(v))),
            None => Err(invalid_default(field_name, "u64", s)),
        },
        Type::TYPE_FLOAT => Ok(Some(DefaultLiteral::Float(String::from_str(s), false))),
        Type::TYPE_DOUBLE => Ok(Some(DefaultLiteral::Float(String::from_str(s), true))),
        Type::TYPE_STRING => Ok(Some(DefaultLiteral::Text(String::from_str(s)))),
        Type::TYPE_BYTES => match unescape_c_escape_string(s) {
            Ok(b) => Ok(Some(DefaultLiteral::Bytes(b))),
            Err(e) => Err(e),
        },
        Type::TYPE_ENUM => if field.type_ref.is_none() {
            Err(CodeGenError::MissingField(String::from_str("field.type_name")))
        } else {
            Ok(Some(DefaultLiteral::EnumValue(String::from_str(s))))
        },
        _ => Ok(None),
    }
}

/// The range and signedness of an integer field type's defaults.
pub open spec fn int_range(t: Type) -> Option<(int, int, bool)> {
    match t {
        Type::TYPE_INT32 | Type::TYPE_SINT32 | Type::TYPE_SFIXED32 => Some((i32::MIN as int, i32::MAX as int, true)),
        Type::TYPE_UINT32 | Type::TYPE_FIXED32 => Some((0, u32::MAX as int, false)),
        Type::TYPE_INT64 | Type::TYPE_SINT64 | Type::TYPE_SFIXED64 => Some((i64::MIN as int, i64::MAX as int, true)),
        Type::TYPE_UINT64 | Type::TYPE_FIXED64 => Some((0, u64::MAX as int, false)),
        _ => None,
    }
}

/// The number an integer literal holds.
pub open spec fn int_value(l: LiteralModel) -> Option<int> {
    match l {
        LiteralModel::I32(v) => Some(v as int),
        LiteralModel::U32(v) => Some(v as int),
        LiteralModel::I64(v) => Some(v as int),
        LiteralModel::U64(v) => Some(v as int),
        _ => None,
    }
}

/// What a field's `default_value` gives, type by type: nothing without a
/// non-empty default and explicit presence; otherwise `true`/`false` for a
/// bool; the decimal value for an integer type, an error exactly when it
/// does not parse at the field's width; the text as written for a float
/// or double (read by the caller) and for a string; the decoded bytes for
/// `bytes`, an error exactly when the escapes do not decode; the value name
/// for an enum, an error exactly when the field names no enum type; and
/// nothing for a message or group.
pub proof fn law_default_by_type(f: FieldModel, explicit_presence: bool)
    ensures
        ({
            let r = default_literal_spec(f, explicit_presence);
            let ty = match f.ty {
                Some(t) => t,
                None => Type::TYPE_DOUBLE,
            };
            &&& (f.default_value is None || f.default_value->0.len() == 0 || !explicit_presence) ==> r == Ok::<Option<LiteralModel>, crate::error::CodeGenErrorModel>(None)
            &&& match f.default_value {
                Some(s) => s.len() > 0 && explicit_presence ==> {
                &&& ty == Type::TYPE_BOOL ==> (r is Err <==> (s != "true"@ && s != "false"@))
                &&& int_range(ty) matches Some((lo, hi, signed)) ==> {
                    &&& (r is Err <==> within(decimal_of(s, signed), lo, hi) is None)
                    &&& r matches Ok(Some(l)) ==> int_value(l) == within(decimal_of(s, signed), lo, hi)
                }
                &&& (ty == Type::TYPE_FLOAT || ty == Type::TYPE_DOUBLE) ==> r == Ok::<Option<LiteralModel>, crate::error::CodeGenErrorModel>(Some(LiteralModel::Float(s, ty == Type::TYPE_DOUBLE)))
                &&& ty == Type::TYPE_STRING ==> r == Ok::<Option<LiteralModel>, crate::error::CodeGenErrorModel>(Some(LiteralModel::Text(s)))
                &&& ty == Type::TYPE_BYTES ==> (r is Err <==> unescape_spec(s) is Err)
                    && (unescape_spec(s) matches Ok(b) ==> r == Ok::<Option<LiteralModel>, crate::error::CodeGenErrorModel>(Some(LiteralModel::Bytes(b))))
                &&& ty == Type::TYPE_ENUM ==> (r is Err <==> f.type_ref is None)
                    && (f.type_ref is Some ==> r == Ok::<Option<LiteralModel>, crate::error::CodeGenErrorModel>(Some(LiteralModel::EnumValue(s))))
                &&& (ty == Type::TYPE_MESSAGE || ty == Type::TYPE_GROUP) ==> r == Ok::<Option<LiteralModel>, crate::error::CodeGenErrorModel>(None)
                },
                None => true,
            }
        }),
{
}

/// The default an opened, required enum field keeps across the change of
/// representation, when it is not the wire zero.
pub enum BareEnumDefault {
    /// The field's declared `default_value`.
    Declared(DefaultLiteral),
    /// The enum's first declared value: its generated `Default`.
    FirstDeclared,
}

/// [`BareEnumDefault`] over literal models.
pub enum BareEnumDefaultModel {
    Declared(LiteralModel),
    FirstDeclared,
}

impl View for BareEnumDefault {
    type V = BareEnumDefaultModel;

    open spec fn view(&self) -> BareEnumDefaultModel {
        match self {
            BareEnumDefault::Declared(l) => BareEnumDefaultModel::Declared(l@),
            BareEnumDefault::FirstDeclared => BareEnumDefaultModel::FirstDeclared,
        }
    }
}

/// The views of a bare enum default's result.
pub open spec fn bare_result_view(r: Result<Option<BareEnumDefault>, CodeGenError>) -> Result<Option<BareEnumDefaultModel>, crate::error::CodeGenErrorModel> {
    match r {
        Ok(Some(d)) => Ok(Some(d@)),
        Ok(None) => Ok(None),
        Err(e) => Err(e@),
    }
}

/// Only a required enum field with open representation gets a bare default:
/// its declared default if it has one (read as for any field, with the
/// field's presence), else the first declared value when that is not
/// zero. An absent first value (an enum outside the compilation set) counts
/// as zero.
pub open spec fn bare_default_spec(f: FieldModel, enum_open: bool, required: bool, explicit_presence: bool, first_value: Option<i32>) -> Result<Option<BareEnumDefaultModel>, crate::error::CodeGenErrorModel> {
    if f.ty != Some(Type::TYPE_ENUM) || !enum_open || !required {
        Ok(None)
    } else {
        match default_literal_spec(f, explicit_presence) {
            Err(e) => Err(e),
            Ok(Some(l)) => Ok(Some(BareEnumDefaultModel::Declared(l))),
            Ok(None) => if f.type_ref is None {
                Err(crate::error::CodeGenErrorModel::MissingField("field.type_name"@))
            } else if first_value.unwrap_or(0) == 0 {
                Ok(None)
            } else {
                Ok(Some(BareEnumDefaultModel::FirstDeclared))
            },
        }
    }
}

/// The default of an enum field whose representation is open (`enum_open`,
/// e.g. a closed enum opened by a feature override) and which is required,
/// so its declared default must survive: the declared `default_value`, or
/// the enum's first declared value (`first_value`, looked up by the caller)
/// when it is non-zero. `Ok(None)` everywhere else, so ordinary open-enum
/// output is untouched. Whether the field has explicit presence, like the
/// enum's Rust path, comes from the caller's resolved features.
pub fn open_enum_bare_default_value(
    field: &FieldDescriptorProto,
    enum_open: bool,
    required: bool,
    explicit_presence: bool,
    first_value: Option<i32>,
) -> (r: Result<Option<BareEnumDefault>, CodeGenError>)
    ensures
        bare_result_view(r) == bare_default_spec(field.model(), enum_open, required, explicit_presence, first_value),
{
    let is_enum = match field.field_type {
        Some(Type::TYPE_ENUM) => true,
        _ => false,
    };
    if !is_enum || !enum_open || !required {
        return Ok(None);
    }
    match default_literal(field, explicit_presence) {
        Err(e) => Err(e),
        Ok(Some(l)) => Ok(Some(BareEnumDefault::Declared(l))),
        Ok(None) => {
            if field.type_ref.is_none() {
                return Err(CodeGenError::MissingField(String::from_str("field.type_name")));
            }
            let v: i32 = match first_value {
                Some(v) => v,
                None => 0,
            };
            if v == 0 {
                Ok(None)
            } else {
                Ok(Some(BareEnumDefault::FirstDeclared))
            }
        },
    }
}

/// The literal an integer default becomes has the field's own width and
/// signedness: a 32-bit signed type (`int32`, `sint32`, `sfixed32`) gives an
/// `I32`, a 32-bit unsigned one (`uint32`, `fixed32`) a `U32`, a 64-bit
/// signed one an `I64` and a 64-bit unsigned one a `U64`, holding the
/// decimal value of the default; an integer default never reads as nothing.
pub proof fn law_int_default_width(f: FieldModel, s: Seq<char>)
    requires
        f.default_value == Some(s),
        s.len() > 0,
    ensures
        ({
            let r = default_literal_spec(f, true);
            &&& (f.ty == Some(Type::TYPE_INT32) || f.ty == Some(Type::TYPE_SINT32) || f.ty == Some(Type::TYPE_SFIXED32)) ==> {
                &&& r matches Ok(Some(l)) ==> l matches LiteralModel::I32(v) && decimal_of(s, true) == Some(v as int)
                &&& r != Ok::<Option<LiteralModel>, crate::error::CodeGenErrorModel>(None)
            }
            &&& (f.ty == Some(Type::TYPE_UINT32) || f.ty == Some(Type::TYPE_FIXED32)) ==> {
                &&& r matches Ok(Some(l)) ==> l matches LiteralModel::U32(v) && decimal_of(s, false) == Some(v as int)
                &&& r != Ok::<Option<LiteralModel>, crate::error::CodeGenErrorModel>(None)
            }
            &&& (f.ty == Some(Type::TYPE_INT64) || f.ty == Some(Type::TYPE_SINT64) || f.ty == Some(Type::TYPE_SFIXED64)) ==> {
                &&& r matches Ok(Some(l)) ==> l matches LiteralModel::I64(v) && decimal_of(s, true) == Some(v as int)
                &&& r != Ok::<Option<LiteralModel>, crate::error::CodeGenErrorModel>(None)
            }
            &&& (f.ty == Some(Type::TYPE_UINT64) || f.ty == Some(Type::TYPE_FIXED64)) ==> {
                &&& r matches Ok(Some(l)) ==> l matches LiteralModel::U64(v) && decimal_of(s, false) == Some(v as int)
                &&& r != Ok::<Option<LiteralModel>, crate::error::CodeGenErrorModel>(None)
            }
        }),
{
}

/// An opened required enum field without a declared default keeps the
/// enum's first declared value exactly when that value is non-zero,
/// negative ones included; with no first value known, or a zero one, it
/// falls back to the wire zero. A declared default, when there is one,
/// wins over the first value, and a field that is not an open, required
/// enum gets no bare default at all.
pub proof fn law_bare_default_first_value(f: FieldModel, enum_open: bool, required: bool, explicit_presence: bool, first_value: Option<i32>)
    ensures
        (f.ty != Some(Type::TYPE_ENUM) || !enum_open || !required)
            ==> bare_default_spec(f, enum_open, required, explicit_presence, first_value) == Ok::<Option<BareEnumDefaultModel>, crate::error::CodeGenErrorModel>(None),
        (f.ty == Some(Type::TYPE_ENUM) && enum_open && required && f.default_value is None && f.type_ref is Some) ==> {
            &&& (bare_default_spec(f, enum_open, required, explicit_presence, first_value)
                == Ok::<Option<BareEnumDefaultModel>, crate::error::CodeGenErrorModel>(Some(BareEnumDefaultModel::FirstDeclared)))
                <==> (first_value is Some && first_value->0 != 0)
            &&& (bare_default_spec(f, enum_open, required, explicit_presence, first_value)
                == Ok::<Option<BareEnumDefaultModel>, crate::error::CodeGenErrorModel>(None))
                <==> (first_value is None || first_value == Some(0i32))
        },
        (f.ty == Some(Type::TYPE_ENUM) && enum_open && required && explicit_presence && f.type_ref is Some
            && f.default_value is Some && f.default_value->0.len() > 0) ==> bare_default_spec(f, enum_open, required, explicit_presence, first_value)
            == Ok::<Option<BareEnumDefaultModel>, crate::error::CodeGenErrorModel>(
                Some(BareEnumDefaultModel::Declared(LiteralModel::EnumValue(f.default_value->0)))),
{
}

} // verus!
