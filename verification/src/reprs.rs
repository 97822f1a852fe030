//! Crate-local string and bytes representation newtypes: owned `String` and
//! `Vec<u8>` wrappers, and wrappers over the small-string types of `ecow`
//! and `compact_str`. Each derefs to its text or bytes and is built from an
//! owned or borrowed value, or from wire bytes (strings checked as UTF-8).

use vstd::prelude::*;
use vstd::std_specs::convert::FromSpecImpl;

verus! {

/// Why wire bytes could not become a value.
#[derive(Debug, Clone, Copy, PartialEq, Eq, Structural)]
pub enum DecodeError {
    /// A string payload is not valid UTF-8.
    InvalidUtf8,
}

/// `core::str::from_utf8` on `payload`.
///
/// Trusted: std documents `from_utf8` as succeeding exactly when the bytes
/// are valid UTF-8, and then yielding the string they encode.
#[verifier::external_body]
fn str_from_utf8(payload: &[u8]) -> (r: Option<&str>)
    ensures
        r is Some <==> vstd::utf8::valid_utf8(payload@),
        r matches Some(s) ==> s@ == vstd::utf8::decode_utf8(payload@),
{
    core::str::from_utf8(payload).ok()
}

/// The text `payload` encodes, if it is valid UTF-8.
fn utf8_string(payload: &[u8]) -> (r: Option<String>)
    ensures
        r is Some <==> vstd::utf8::valid_utf8(payload@),
        r matches Some(s) ==> s@ == vstd::utf8::decode_utf8(payload@),
{
    match str_from_utf8(payload) {
        Some(s) => Some(String::from_str(s)),
        None => None,
    }
}

/// `String`-backed newtype satisfying the string-representation contract
/// (`Deref<str>` + `AsRef<str>` + `From<String>`/`From<&str>`).
#[derive(Clone, PartialEq, Eq, Default, Debug)]
pub struct LocalStr(pub String);

impl LocalStr {
    /// The text.
    pub fn as_str(&self) -> (r: &str)
        ensures
            r@ == self.0@,
    {
        self.0.as_str()
    }

    /// Decode a wire payload: its text when it is valid UTF-8.
    pub fn from_wire(payload: &[u8]) -> (r: Result<LocalStr, DecodeError>)
        ensures
            r is Ok <==> vstd::utf8::valid_utf8(payload@),
            r matches Ok(s) ==> s.0@ == vstd::utf8::decode_utf8(payload@),
            r matches Err(e) ==> e == DecodeError::InvalidUtf8,
    {
        match utf8_string(payload) {
            Some(s) => Ok(LocalStr(s)),
            None => Err(DecodeError::InvalidUtf8),
        }
    }
}

impl core::ops::Deref for LocalStr {
    type Target = str;

    fn deref(&self) -> (r: &str)
        ensures
            r@ == self.0@,
    {
        self.0.as_str()
    }
}

impl AsRef<str> for LocalStr {
    fn as_ref(&self) -> (r: &str)
        ensures
            r@ == self.0@,
    {
        self.0.as_str()
    }
}

impl From<String> for LocalStr {
    fn from(s: String) -> (r: LocalStr) {
        LocalStr(s)
    }
}

impl FromSpecImpl<String> for LocalStr {
    open spec fn obeys_from_spec() -> bool {
        true
    }

    open spec fn from_spec(s: String) -> LocalStr {
        LocalStr(s)
    }
}

impl<'a> From<&'a str> for LocalStr {
    fn from(s: &'a str) -> (r: LocalStr)
        ensures
            r.0@ == s@,
    {
        LocalStr::from_str_slice(s)
    }
}

impl<'a> FromSpecImpl<&'a str> for LocalStr {
    /// Specified by `LocalStr::from_str_slice`, which says what text the
    /// new string holds.
    open spec fn obeys_from_spec() -> bool {
        false
    }

    open spec fn from_spec(s: &'a str) -> LocalStr {
        LocalStr(choose|t: String| t@ == s@)
    }
}

impl LocalStr {
    /// A `LocalStr` holding a copy of `s`.
    pub fn from_str_slice(s: &str) -> (r: LocalStr)
        ensures
            r.0@ == s@,
    {
        LocalStr(String::from_str(s))
    }
}

/// `Vec<u8>`-backed newtype satisfying the bytes-representation contract
/// (`Deref<[u8]>` + `AsRef<[u8]>` + `From<Vec<u8>>`).
#[derive(Clone, PartialEq, Eq, Default, Debug)]
pub struct LocalBytes(pub Vec<u8>);

impl LocalBytes {
    /// The bytes.
    pub fn as_slice(&self) -> (r: &[u8])
        ensures
            r@ == self.0@,
    {
        self.0.as_slice()
    }

    /// Take a wire payload: its bytes, always.
    pub fn from_wire(payload: &[u8]) -> (r: Result<LocalBytes, DecodeError>)
        ensures
            r matches Ok(b) && b.0@ == payload@,
    {
        let mut v: Vec<u8> = Vec::new();
        let mut i: usize = 0;
        while i < payload.len()
            invariant
                i <= payload@.len(),
                v@ == payload@.take(i as int),
            decreases payload@.len() - i,
        {
            v.push(payload[i]);
            i = i + 1;
            assert(v@ =~= payload@.take(i as int));
        }
        assert(payload@.take(payload@.len() as int) =~= payload@);
        Ok(LocalBytes(v))
    }
}

impl core::ops::Deref for LocalBytes {
    type Target = [u8];

    fn deref(&self) -> (r: &[u8])
        ensures
            r@ == self.0@,
    {
        self.0.as_slice()
    }
}

impl AsRef<[u8]> for LocalBytes {
    fn as_ref(&self) -> (r: &[u8])
        ensures
            r@ == self.0@,
    {
        self.0.as_slice()
    }
}

impl From<Vec<u8>> for LocalBytes {
    fn from(v: Vec<u8>) -> (r: LocalBytes) {
        LocalBytes(v)
    }
}

impl FromSpecImpl<Vec<u8>> for LocalBytes {
    open spec fn obeys_from_spec() -> bool {
        true
    }

    open spec fn from_spec(v: Vec<u8>) -> LocalBytes {
        LocalBytes(v)
    }
}

} // verus!

verus! {

#[verifier::external_type_specification]
#[verifier::external_body]
pub struct ExEcoString(ecow::EcoString);

#[verifier::external_type_specification]
#[verifier::external_body]
pub struct ExCompactString(compact_str::CompactString);

/// The text an `ecow::EcoString` holds.
pub uninterp spec fn eco_text(s: ecow::EcoString) -> Seq<char>;

/// The text a `compact_str::CompactString` holds.
pub uninterp spec fn compact_text(s: compact_str::CompactString) -> Seq<char>;

/// `EcoString::from(String)`: the new string holds the same text.
///
/// Trusted: ecow builds the value with `EcoString::from_str(&s)`, which copies
/// the slice's bytes; the contract says the text is unchanged.
#[verifier::external_body]
fn eco_from_string(s: String) -> (r: ecow::EcoString)
    ensures
        eco_text(r) == s@,
{
    ecow::EcoString::from(s)
}

/// `EcoString::from(&str)`: the new string holds the same text.
///
/// Trusted: ecow copies the slice's bytes; the contract says the text is
/// unchanged.
#[verifier::external_body]
fn eco_from_str(s: &str) -> (r: ecow::EcoString)
    ensures
        eco_text(r) == s@,
{
    ecow::EcoString::from(s)
}

/// `EcoString::as_str`: the held text.
///
/// Trusted: ecow returns its buffer viewed as `&str`; the contract says that
/// is the held text.
#[verifier::external_body]
fn eco_as_str(s: &ecow::EcoString) -> (r: &str)
    ensures
        r@ == eco_text(*s),
{
    s.as_str()
}

/// `CompactString::from(String)`: the new string holds the same text.
///
/// Trusted: compact_str reuses or copies the string's buffer
/// (`Repr::from_string`); the contract says the text is unchanged. It
/// panics only when the system cannot allocate (a `ReserveError`), which is
/// not modelled.
#[verifier::external_body]
fn compact_from_string(s: String) -> (r: compact_str::CompactString)
    ensures
        compact_text(r) == s@,
{
    compact_str::CompactString::from(s)
}

/// `CompactString::from(&str)`: the new string holds the same text.
///
/// Trusted: compact_str copies the slice (`CompactString::new`); the
/// contract says the text is unchanged. It panics only when the system
/// cannot allocate, which is not modelled.
#[verifier::external_body]
fn compact_from_str(s: &str) -> (r: compact_str::CompactString)
    ensures
        compact_text(r) == s@,
{
    compact_str::CompactString::from(s)
}

/// `CompactString::as_str`: the held text.
///
/// Trusted: compact_str returns its representation viewed as `&str`; the
/// contract says that is the held text.
#[verifier::external_body]
fn compact_as_str(s: &compact_str::CompactString) -> (r: &str)
    ensures
        r@ == compact_text(*s),
{
    s.as_str()
}

/// `EcoString::clone`: the copy holds the same text.
///
/// Trusted: ecow's `Clone` shares or copies the buffer; the contract says the
/// text is unchanged. The derived `Clone` of `EcoStr` calls it.
pub assume_specification[ <ecow::EcoString as Clone>::clone ](s: &ecow::EcoString) -> (r: ecow::EcoString)
    ensures
        eco_text(r) == eco_text(*s),
;

/// `CompactString::clone`: the copy holds the same text.
///
/// Trusted: compact_str's `Clone` copies the representation; the contract
/// says the text is unchanged. The derived `Clone` of `CompactStr` calls it.
pub assume_specification[ <compact_str::CompactString as Clone>::clone ](s: &compact_str::CompactString) -> (r: compact_str::CompactString)
    ensures
        compact_text(r) == compact_text(*s),
;

/// Newtype over `ecow::EcoString`.
#[derive(Clone, PartialEq, Eq, Default, Debug)]
pub struct EcoStr(pub ecow::EcoString);

impl EcoStr {
    /// The text.
    pub fn as_str(&self) -> (r: &str)
        ensures
            r@ == eco_text(self.0),
    {
        eco_as_str(&self.0)
    }

    /// An `EcoStr` holding `s`.
    pub fn from_str_slice(s: &str) -> (r: EcoStr)
        ensures
            eco_text(r.0) == s@,
    {
        EcoStr(eco_from_str(s))
    }

    /// An `EcoStr` holding the text of `s`.
    pub fn from_text(s: String) -> (r: EcoStr)
        ensures
            eco_text(r.0) == s@,
    {
        EcoStr(eco_from_string(s))
    }

    /// Decode a wire payload: its text when it is valid UTF-8.
    pub fn from_wire(payload: &[u8]) -> (r: Result<EcoStr, DecodeError>)
        ensures
            r is Ok <==> vstd::utf8::valid_utf8(payload@),
            r matches Ok(s) ==> eco_text(s.0) == vstd::utf8::decode_utf8(payload@),
            r matches Err(e) ==> e == DecodeError::InvalidUtf8,
    {
        match utf8_string(payload) {
            Some(s) => Ok(EcoStr(eco_from_string(s))),
            None => Err(DecodeError::InvalidUtf8),
        }
    }
}

impl core::ops::Deref for EcoStr {
    type Target = str;

    fn deref(&self) -> (r: &str)
        ensures
            r@ == eco_text(self.0),
    {
        eco_as_str(&self.0)
    }
}

impl AsRef<str> for EcoStr {
    fn as_ref(&self) -> (r: &str)
        ensures
            r@ == eco_text(self.0),
    {
        eco_as_str(&self.0)
    }
}

impl From<String> for EcoStr {
    fn from(s: String) -> (r: EcoStr)
        ensures
            eco_text(r.0) == s@,
    {
        EcoStr(eco_from_string(s))
    }
}

impl<'a> From<&'a str> for EcoStr {
    fn from(s: &'a str) -> (r: EcoStr)
        ensures
            eco_text(r.0) == s@,
    {
        EcoStr::from_str_slice(s)
    }
}

impl<'a> FromSpecImpl<&'a str> for EcoStr {
    /// Specified by `EcoStr::from_str_slice`.
    open spec fn obeys_from_spec() -> bool {
        false
    }

    open spec fn from_spec(s: &'a str) -> EcoStr {
        EcoStr(choose|e: ecow::EcoString| eco_text(e) == s@)
    }
}

impl FromSpecImpl<String> for EcoStr {
    /// An `EcoString` value is more than its text (its buffer may be shared),
    /// so `from` is specified by `from_text` instead of here.
    open spec fn obeys_from_spec() -> bool {
        false
    }

    open spec fn from_spec(s: String) -> EcoStr {
        EcoStr(choose|e: ecow::EcoString| eco_text(e) == s@)
    }
}

/// Newtype over `compact_str::CompactString`.
#[derive(Clone, PartialEq, Eq, Default, Debug)]
pub struct CompactStr(pub compact_str::CompactString);

impl CompactStr {
    /// The text.
    pub fn as_str(&self) -> (r: &str)
        ensures
            r@ == compact_text(self.0),
    {
        compact_as_str(&self.0)
    }

    /// A `CompactStr` holding `s`.
    pub fn from_str_slice(s: &str) -> (r: CompactStr)
        ensures
            compact_text(r.0) == s@,
    {
        CompactStr(compact_from_str(s))
    }

    /// A `CompactStr` holding the text of `s`.
    pub fn from_text(s: String) -> (r: CompactStr)
        ensures
            compact_text(r.0) == s@,
    {
        CompactStr(compact_from_string(s))
    }

    /// Decode a wire payload: its text when it is valid UTF-8.
    pub fn from_wire(payload: &[u8]) -> (r: Result<CompactStr, DecodeError>)
        ensures
            r is Ok <==> vstd::utf8::valid_utf8(payload@),
            r matches Ok(s) ==> compact_text(s.0) == vstd::utf8::decode_utf8(payload@),
            r matches Err(e) ==> e == DecodeError::InvalidUtf8,
    {
        match utf8_string(payload) {
            Some(s) => Ok(CompactStr(compact_from_string(s))),
            None => Err(DecodeError::InvalidUtf8),
        }
    }
}

impl core::ops::Deref for CompactStr {
    type Target = str;

    fn deref(&self) -> (r: &str)
        ensures
            r@ == compact_text(self.0),
    {
        compact_as_str(&self.0)
    }
}

impl AsRef<str> for CompactStr {
    fn as_ref(&self) -> (r: &str)
        ensures
            r@ == compact_text(self.0),
    {
        compact_as_str(&self.0)
    }
}

impl From<String> for CompactStr {
    fn from(s: String) -> (r: CompactStr)
        ensures
            compact_text(r.0) == s@,
    {
        CompactStr(compact_from_string(s))
    }
}

impl<'a> From<&'a str> for CompactStr {
    fn from(s: &'a str) -> (r: CompactStr)
        ensures
            compact_text(r.0) == s@,
    {
        CompactStr::from_str_slice(s)
    }
}

impl<'a> FromSpecImpl<&'a str> for CompactStr {
    /// Specified by `CompactStr::from_str_slice`.
    open spec fn obeys_from_spec() -> bool {
        false
    }

    open spec fn from_spec(s: &'a str) -> CompactStr {
        CompactStr(choose|e: compact_str::CompactString| compact_text(e) == s@)
    }
}

impl FromSpecImpl<String> for CompactStr {
    /// A `CompactString` value is more than its text (its buffer may live
    /// inline or on the heap), so `from` is specified by `from_text` instead.
    open spec fn obeys_from_spec() -> bool {
        false
    }

    open spec fn from_spec(s: String) -> CompactStr {
        CompactStr(choose|e: compact_str::CompactString| compact_text(e) == s@)
    }
}

} // verus!
