//! The calls into outside crates and into parts of std that vstd does not
//! specify. Each trusted item below names the function it calls and says what
//! its contract claims of it.
use sha2::Digest;
use vstd::prelude::*;

use crate::chars::string_of;
use crate::utils::is_ar_char;

verus! {

/// What compiling `pattern` with `regex::Regex::new` and asking the compiled
/// regex `is_match(text)` gives: `None` when the pattern does not compile,
/// else whether the regex matches somewhere in `text`.
pub uninterp spec fn regex_match_outcome(pattern: Seq<char>, text: Seq<char>) -> Option<bool>;

/// What compiling `pattern` with `regex::Regex::new` and calling
/// `replace_all(text, rep)` on the compiled regex gives: `None` when the
/// pattern does not compile, else the text with every non-overlapping match,
/// leftmost first, replaced by `rep` (in which `$1`, `${1}` name groups).
pub uninterp spec fn regex_replace_outcome(pattern: Seq<char>, text: Seq<char>, rep: Seq<char>) -> Option<Seq<char>>;

/// The SHA-256 digest of `data`, as `sha2::Sha256::digest` computes it.
pub uninterp spec fn sha256_of(data: Seq<u8>) -> Seq<u8>;

/// Whether std's `char::is_alphanumeric` holds of `c` (the Unicode
/// Alphabetic or Numeric property).
pub uninterp spec fn alphanumeric(c: char) -> bool;

/// Calls `regex::Regex::new(pattern)` and, when it compiles, `is_match(text)`.
/// The contract ties the outcome to the name `regex_match_outcome`, and
/// claims two facts of the Unicode classes that the crate compiles from the
/// general-category tables of regex-syntax (`unicode_tables/general_category.rs`):
/// `_` (U+005F, listed only under `CONNECTOR_PUNCTUATION`) is no letter,
/// mark or number; and the Arabic letters and marks of `is_ar_char` lie in
/// none of the ranges of `PUNCTUATION` or `SYMBOL`. Nothing else is claimed
/// of which texts a given pattern matches.
#[verifier::external_body]
pub fn regex_is_match(pattern: &str, text: &str) -> (r: Option<bool>)
    ensures
        r == regex_match_outcome(pattern@, text@),
        pattern@ == "[\\p{L}\\p{M}\\p{N}]"@ && text@ == seq!['_'] ==> r == Some(false),
        pattern@ == "[\\p{P}\\p{S}]"@ && text@.len() == 1 && is_ar_char(text@[0]) ==> r == Some(false),
{
    match regex::Regex::new(pattern) {
        Ok(re) => Some(re.is_match(text)),
        Err(_) => None,
    }
}

/// Calls `regex::Regex::new(pattern)` and, when it compiles,
/// `replace_all(text, rep)`. The contract only ties the outcome to the name
/// `regex_replace_outcome`.
#[verifier::external_body]
pub fn regex_replace_all(pattern: &str, text: &str, rep: &str) -> (r: Option<String>)
    ensures
        match r {
            Some(s) => regex_replace_outcome(pattern@, text@, rep@) == Some(s@),
            None => regex_replace_outcome(pattern@, text@, rep@) is None,
        },
{
    match regex::Regex::new(pattern) {
        Ok(re) => Some(re.replace_all(text, rep).into_owned()),
        Err(_) => None,
    }
}

/// Calls `sha2::Sha256::digest(data)`. The contract claims the documented
/// output size, 32 bytes, and ties the bytes to the name `sha256_of`.
#[verifier::external_body]
pub fn sha256_digest(data: &[u8]) -> (r: Vec<u8>)
    ensures
        r@ == sha256_of(data@),
        r@.len() == 32,
{
    sha2::Sha256::digest(data).to_vec()
}

/// Calls std's `char::is_alphanumeric`; the contract ties the result to the
/// name `alphanumeric`, and claims that `_` is not alphanumeric: std
/// documents the function as the Unicode Alphabetic property or a numeric
/// general category, and U+005F LOW LINE is connector punctuation, outside
/// both (as the Unicode tables vendored with regex-syntax,
/// `general_category.rs` and `property_bool.rs`, list it).
#[verifier::external_body]
pub fn is_alphanumeric(c: char) -> (r: bool)
    ensures
        r == alphanumeric(c),
        c == '_' ==> !r,
{
    c.is_alphanumeric()
}

/// `c` belongs to the character class written as the regex `pattern`: the
/// one-character string made of `c` matches it.
pub open spec fn in_class(pattern: Seq<char>, c: char) -> bool {
    regex_match_outcome(pattern, seq![c]) == Some(true)
}

/// Whether `c` belongs to the character class written as the regex `pattern`.
pub fn char_in_class(pattern: &str, c: char) -> (r: bool)
    ensures
        r == in_class(pattern@, c),
        pattern@ == "[\\p{L}\\p{M}\\p{N}]"@ && c == '_' ==> !r,
        pattern@ == "[\\p{P}\\p{S}]"@ && is_ar_char(c) ==> !r,
{
    let v = vec![c];
    let s = string_of(v.as_slice());
    assert(s@ =~= seq![c]);
    match regex_is_match(pattern, s.as_str()) {
        Some(b) => b,
        None => false,
    }
}

/// The Unicode White_Space property, which std's `char::is_whitespace`,
/// `str::trim` and the regex class `\s` all go by.
pub open spec fn is_white_space(c: char) -> bool {
    ||| ('\u{9}' <= c && c <= '\u{d}')
    ||| c == ' '
    ||| c == '\u{85}'
    ||| c == '\u{a0}'
    ||| c == '\u{1680}'
    ||| ('\u{2000}' <= c && c <= '\u{200a}')
    ||| c == '\u{2028}'
    ||| c == '\u{2029}'
    ||| c == '\u{202f}'
    ||| c == '\u{205f}'
    ||| c == '\u{3000}'
}

/// Whether `c` has the Unicode White_Space property.
pub fn is_whitespace(c: char) -> (r: bool)
    ensures
        r == is_white_space(c),
{
    ('\u{9}' <= c && c <= '\u{d}') || c == ' ' || c == '\u{85}' || c == '\u{a0}' || c == '\u{1680}'
        || ('\u{2000}' <= c && c <= '\u{200a}') || c == '\u{2028}' || c == '\u{2029}' || c
        == '\u{202f}' || c == '\u{205f}' || c == '\u{3000}'
}

} // verus!
