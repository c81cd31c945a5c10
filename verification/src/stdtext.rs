//! Text operations of the standard library whose full behaviour rests on Unicode tables or
//! on path parsing: they are called, and named by what they return.

use vstd::prelude::*;

verus! {

/// `char::is_alphanumeric`: Unicode Alphabetic or Numeric.
pub uninterp spec fn alnum(c: char) -> bool;

/// `char::is_alphanumeric`. Claimed: a function of the character alone.
#[verifier::external_body]
pub(crate) fn is_alnum(c: char) -> (b: bool)
    ensures
        b == alnum(c),
{
    c.is_alphanumeric()
}

/// `str::to_lowercase`: the Unicode lower-case mapping of a text.
pub uninterp spec fn lowercase(s: Seq<char>) -> Seq<char>;

/// `str::to_lowercase`. Claimed: a function of the text alone.
#[verifier::external_body]
pub(crate) fn to_lower(s: &str) -> (r: String)
    ensures
        r@ == lowercase(s@),
{
    s.to_lowercase()
}

/// The file stem of a path (`Path::file_stem`, as text), or empty where it has none.
pub uninterp spec fn file_stem(path: Seq<char>) -> Seq<char>;

/// `Path::new(path).file_stem()`, converted to text, empty where there is none.
/// Claimed: a function of the path text alone.
#[verifier::external_body]
pub(crate) fn file_stem_of(path: &str) -> (r: String)
    ensures
        r@ == file_stem(path@),
{
    std::path::Path::new(path).file_stem().and_then(|s| s.to_str()).unwrap_or("").to_string()
}

/// The extension of a path (`Path::extension`, as text), if it has one.
pub uninterp spec fn extension(path: Seq<char>) -> Option<Seq<char>>;

/// `Path::new(path).extension()`, converted to text. Claimed: a function of the path text
/// alone.
#[verifier::external_body]
pub(crate) fn extension_of(path: &str) -> (r: Option<String>)
    ensures
        match r {
            Some(e) => extension(path@) == Some(e@),
            None => extension(path@) is None,
        },
{
    std::path::Path::new(path).extension().and_then(|s| s.to_str()).map(|s| s.to_string())
}

} // verus!
