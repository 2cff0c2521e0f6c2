//! The few places where the library leans on code it does not verify:
//! thin wrappers around functions of other crates (and two of `std`'s
//! string primitives that vstd leaves unspecified).  Each wrapper's body
//! only makes the call and converts values; its contract states what the
//! callee's documentation and source promise, nothing more.  Results that
//! would take pages to define (a digest, Unicode case folding) are given
//! opaque names instead.

use vstd::prelude::*;

verus! {

/// The Unicode lowercase conversion of `s`, as `str::to_lowercase` defines it.
pub uninterp spec fn lower_of(s: Seq<char>) -> Seq<char>;

/// The replacement-character-lossy UTF-8 decoding of `bytes`.
pub uninterp spec fn utf8_lossy_of(bytes: Seq<u8>) -> Seq<char>;

/// The replacement-character-lossy UTF-16 decoding of `units`.
pub uninterp spec fn utf16_lossy_of(units: Seq<u16>) -> Seq<char>;

/// The 64-bit XXH3 digest of `bytes`.
pub uninterp spec fn xxh3_of(bytes: Seq<u8>) -> u64;

/// The JSON array-of-strings encoding of `items`.
pub uninterp spec fn json_strings_of(items: Seq<Seq<char>>) -> Seq<char>;

/// Relies on `String::push`: appends one character.
#[verifier::external_body]
pub fn push_char(s: &mut String, c: char)
    ensures
        final(s)@ == old(s)@.push(c),
{
    s.push(c);
}

/// Relies on `str::to_lowercase`: the result is a function of the characters
/// alone, and an empty string stays empty.
#[verifier::external_body]
pub fn lowercase(s: &str) -> (r: String)
    ensures
        r@ == lower_of(s@),
        s@.len() == 0 ==> r@.len() == 0,
{
    s.to_lowercase()
}

/// Relies on `String::from_utf8_lossy`: the result depends on the bytes
/// alone, and no bytes decode to no characters.
#[verifier::external_body]
pub fn utf8_lossy(bytes: &[u8]) -> (r: String)
    ensures
        r@ == utf8_lossy_of(bytes@),
        bytes@.len() == 0 ==> r@.len() == 0,
{
    String::from_utf8_lossy(bytes).into_owned()
}

/// Relies on `String::from_utf16_lossy`: the result depends on the code
/// units alone, and no units decode to no characters.
#[verifier::external_body]
pub fn utf16_lossy(units: &[u16]) -> (r: String)
    ensures
        r@ == utf16_lossy_of(units@),
        units@.len() == 0 ==> r@.len() == 0,
{
    String::from_utf16_lossy(units)
}

/// Relies on `xxhash_rust::xxh3::xxh3_64`: a pure digest of the input bytes.
#[verifier::external_body]
pub fn content_digest(bytes: &[u8]) -> (r: u64)
    ensures
        r == xxh3_of(bytes@),
{
    xxhash_rust::xxh3::xxh3_64(bytes)
}

/// Relies on `uuid::Uuid::new_v4` and its `Display` impl: a random
/// identifier rendered in the 36-character hyphenated form.  The value is
/// random, so nothing but its length is promised.
#[verifier::external_body]
pub fn new_group_id() -> (r: String)
    ensures
        r@.len() == 36,
{
    uuid::Uuid::new_v4().to_string()
}

/// Relies on `serde_json::to_string`: the canonical JSON encoding of a
/// vector of strings.  For this type serialization cannot fail (no maps,
/// no fallible `Serialize`), so the fallback arm is never taken; it
/// mirrors the store's "never NULL where JSON is expected" rule anyway.
#[verifier::external_body]
pub fn json_encode_strings(items: &Vec<String>) -> (r: String)
    ensures
        r@ == json_strings_of(items.deep_view()),
        items@.len() == 0 ==> r@ == "[]"@,
{
    match serde_json::to_string(items) {
        Ok(s) => s,
        Err(_) => String::from("[]"),
    }
}

/// Relies on `dirs::document_dir`: the per-user documents directory, if the
/// platform reports one.  The value depends on the environment, so nothing
/// is promised of it.
#[verifier::external_body]
pub fn document_dir_string() -> (r: Option<String>)
{
    dirs::document_dir().map(|p| p.to_string_lossy().into_owned())
}

/// Relies on `dirs::home_dir`: the user's home directory, if the platform
/// reports one.  The value depends on the environment, so nothing is
/// promised of it.
#[verifier::external_body]
pub fn home_dir_string() -> (r: Option<String>)
{
    dirs::home_dir().map(|p| p.to_string_lossy().into_owned())
}

} // verus!
