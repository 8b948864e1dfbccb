//! What the library takes on trust.
//!
//! Each function here does nothing but call into code that is not verified, under a
//! contract that is believed and not proved. Everything else in the library is proved
//! from these contracts.

use vstd::prelude::*;

verus! {

/// `String::push` of the standard library: the character is appended at the end and
/// nothing else changes.
#[verifier::external_body]
pub(crate) fn push_char(s: &mut String, c: char)
    ensures
        final(s)@ == old(s)@.push(c),
{
    s.push(c)
}

/// `uuid::Uuid::new_v4`, written out by the `Display` of the identifier: a new random
/// identity. The text is the hyphenated form of the identifier, which has 36 characters;
/// nothing else is claimed of it. The call panics where the operating system yields no
/// random bytes.
#[verifier::external_body]
pub(crate) fn fresh_identity() -> (id: String)
    ensures
        id@.len() == 36,
{
    uuid::Uuid::new_v4().to_string()
}

/// Whether `regex::Regex::new` accepts `pattern`.
pub uninterp spec fn spec_pattern_valid(pattern: Seq<char>) -> bool;

/// Whether the regular expression that `regex::Regex::new` makes of `pattern` matches
/// somewhere in `text`, as `regex::Regex::is_match` tells.
pub uninterp spec fn spec_pattern_match(pattern: Seq<char>, text: Seq<char>) -> bool;

/// `regex::Regex::new` on `pattern` and, where the pattern is accepted,
/// `regex::Regex::is_match` of the regular expression on `text`. Where the pattern is not
/// accepted the result is the text of the error of the crate, of which nothing is claimed.
#[verifier::external_body]
pub(crate) fn pattern_matches(pattern: &str, text: &str) -> (r: Result<bool, String>)
    ensures
        r is Ok <==> spec_pattern_valid(pattern@),
        r matches Ok(b) ==> b == spec_pattern_match(pattern@, text@),
{
    match regex::Regex::new(pattern) {
        Ok(re) => Ok(re.is_match(text)),
        Err(e) => Err(e.to_string()),
    }
}

} // verus!
