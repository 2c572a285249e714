//! The JSON text of the values that lines of the store hold: lists of bytes
//! and lists of pairs of strings. Nothing in this file is proved: it states
//! what the library relies on.
use vstd::prelude::*;

verus! {

/// The error of `serde_json`.
#[verifier::external_type_specification]
#[verifier::external_body]
pub struct ExJsonError(serde_json::Error);

/// The views of a sequence of pairs of strings.
pub open spec fn pair_views(pairs: Seq<(String, String)>) -> Seq<(Seq<char>, Seq<char>)> {
    pairs.map_values(|p: (String, String)| (p.0@, p.1@))
}

/// The text that `serde_json::to_string` writes for a list of pairs of
/// strings, where it writes one.
pub uninterp spec fn json_text(pairs: Seq<(Seq<char>, Seq<char>)>) -> Option<Seq<char>>;

/// The list of pairs of strings that `serde_json::from_str` reads from a
/// text, where it reads one.
pub uninterp spec fn json_pairs(text: Seq<char>) -> Option<Seq<(Seq<char>, Seq<char>)>>;

/// The text that `serde_json::to_string` writes for a list of bytes, where
/// it writes one.
pub uninterp spec fn json_bytes_text(bytes: Seq<u8>) -> Option<Seq<char>>;

/// The list of bytes that `serde_json::from_str` reads from a text, where
/// it reads one.
pub uninterp spec fn json_bytes(text: Seq<char>) -> Option<Seq<u8>>;

/// `serde_json::to_string` writes a value as JSON text; the text depends on
/// the value alone. The contract names it.
#[verifier::external_body]
pub(crate) fn pairs_to_json(pairs: &Vec<(String, String)>) -> (r: Result<
    String,
    serde_json::Error,
>)
    ensures
        match r {
            Ok(text) => json_text(pair_views(pairs@)) == Some(text@),
            Err(_) => json_text(pair_views(pairs@)) is None,
        },
{
    serde_json::to_string(pairs)
}

/// `serde_json::from_str` reads a value from JSON text; what it reads
/// depends on the text alone. The contract names it.
#[verifier::external_body]
pub(crate) fn pairs_from_json(text: &str) -> (r: Result<Vec<(String, String)>, serde_json::Error>)
    ensures
        match r {
            Ok(pairs) => json_pairs(text@) == Some(pair_views(pairs@)),
            Err(_) => json_pairs(text@) is None,
        },
{
    serde_json::from_str(text)
}

/// `serde_json::to_string` on a list of bytes; the text depends on the
/// bytes alone. The contract names it.
#[verifier::external_body]
pub(crate) fn bytes_to_json(bytes: &Vec<u8>) -> (r: Result<String, serde_json::Error>)
    ensures
        match r {
            Ok(text) => json_bytes_text(bytes@) == Some(text@),
            Err(_) => json_bytes_text(bytes@) is None,
        },
{
    serde_json::to_string(bytes)
}

/// `serde_json::from_str` for a list of bytes; what it reads depends on the
/// text alone. The contract names it.
#[verifier::external_body]
pub(crate) fn bytes_from_json(text: &str) -> (r: Result<Vec<u8>, serde_json::Error>)
    ensures
        match r {
            Ok(bytes) => json_bytes(text@) == Some(bytes@),
            Err(_) => json_bytes(text@) is None,
        },
{
    serde_json::from_str(text)
}

} // verus!
