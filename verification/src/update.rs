//! Whether a release is another version than the running one.
use vstd::prelude::*;
use crate::utils::text::{copy_range, matches_at, reads_at, same_chars, to_chars, trim, trimmed};

verus! {

/// `s` from position `at` on, without every `prefix` that it starts with,
/// one after the other.
pub open spec fn without_leading(s: Seq<char>, at: int, prefix: Seq<char>) -> Seq<char>
    decreases s.len() - at,
{
    if prefix.len() > 0 && reads_at(s, at, prefix) {
        without_leading(s, at + prefix.len(), prefix)
    } else {
        s.skip(at)
    }
}

/// The number of a version: its text without the whitespace around it,
/// then without every leading `version`, then without every leading `v`.
pub open spec fn version_number(v: Seq<char>) -> Seq<char> {
    without_leading(without_leading(trim(v), 0, "version"@), 0, "v"@)
}

/// `s` without every `prefix` that it starts with, one after the other.
fn strip_leading(s: Vec<char>, prefix: &[char]) -> (r: Vec<char>)
    ensures
        r@ == without_leading(s@, 0, prefix@),
{
    let mut at: usize = 0;
    while prefix.len() > 0 && matches_at(s.as_slice(), at, prefix)
        invariant
            at <= s.len(),
            without_leading(s@, 0, prefix@) == without_leading(s@, at as int, prefix@),
        decreases s.len() - at,
    {
        at += prefix.len();
    }
    let out = copy_range(s.as_slice(), at, s.len());
    assert(out@ =~= s@.skip(at as int));
    out
}

/// The number of the version `v`.
fn number_of(v: &str) -> (r: Vec<char>)
    ensures
        r@ == version_number(v@),
{
    let chars = to_chars(v);
    let bare = trimmed(chars.as_slice());
    let word = to_chars("version");
    let letter = to_chars("v");
    strip_leading(strip_leading(bare, word.as_slice()), letter.as_slice())
}

/// Whether the release `latest_v` is another version than `current_v`: their
/// numbers differ.
pub fn can_update(current_v: &str, latest_v: &str) -> (b: bool)
    ensures
        b == (version_number(current_v@) != version_number(latest_v@)),
{
    let current = number_of(current_v);
    let latest = number_of(latest_v);
    !same_chars(current.as_slice(), latest.as_slice())
}

/// Why the newest release is not known.
#[derive(Debug, PartialEq, Eq)]
pub enum UpdateError {
    /// The address of the newest release names no version.
    InvalidReleaseVersion,
    /// The address of the newest release has no path.
    ErrorRetrievingVersion,
}

impl UpdateError {
    /// What to tell the user about this error.
    pub fn message(&self) -> (text: String)
        ensures
            self is InvalidReleaseVersion ==> text@ == "No valid release version found"@,
            self is ErrorRetrievingVersion ==> text@ == "Cannot find release version"@,
    {
        match self {
            UpdateError::InvalidReleaseVersion => String::from_str(
                "No valid release version found",
            ),
            UpdateError::ErrorRetrievingVersion => String::from_str("Cannot find release version"),
        }
    }
}

/// The version that the address of the newest release names: the last
/// segment of its path. An address without a path is refused with
/// `ErrorRetrievingVersion`, one that ends in `releases` with
/// `InvalidReleaseVersion`.
pub fn release_version(last_segment: Option<&str>) -> (r: Result<String, UpdateError>)
    ensures
        match last_segment {
            None => r == Err::<String, UpdateError>(UpdateError::ErrorRetrievingVersion),
            Some(segment) => if segment@ == "releases"@ {
                r == Err::<String, UpdateError>(UpdateError::InvalidReleaseVersion)
            } else {
                r is Ok && r->Ok_0@ == segment@
            },
        },
{
    match last_segment {
        None => Err(UpdateError::ErrorRetrievingVersion),
        Some(segment) => {
            let chars = to_chars(segment);
            let word = to_chars("releases");
            if same_chars(chars.as_slice(), word.as_slice()) {
                Err(UpdateError::InvalidReleaseVersion)
            } else {
                Ok(String::from_str(segment))
            }
        },
    }
}

} // verus!
