//! Compatibility of the host that calls the preprocessor: whether the
//! version it reports satisfies the version this crate was built against.
//!
//! Versions and requirements are read and compared by the `semver` crate.
//! What that crate decides is named here, not restated: the contracts below
//! say which of its answers lead to which result.

use vstd::prelude::*;
use vstd::string::*;

verus! {

/// `semver::Version`, a parsed version. Nothing is known of its inside.
#[verifier::external_type_specification]
#[verifier::external_body]
pub struct ExVersion(semver::Version);

/// `semver::VersionReq`, a parsed version requirement. Nothing is known of
/// its inside.
#[verifier::external_type_specification]
#[verifier::external_body]
pub struct ExVersionReq(semver::VersionReq);

/// `semver::Error`, the reason for which a text was refused. Nothing is
/// known of its inside.
#[verifier::external_type_specification]
#[verifier::external_body]
pub struct ExSemverError(semver::Error);

/// Whether `semver::Version::parse` accepts the text.
pub uninterp spec fn is_version(text: Seq<char>) -> bool;

/// Whether `semver::VersionReq::parse` accepts the text.
pub uninterp spec fn is_version_req(text: Seq<char>) -> bool;

/// What `semver::VersionReq::matches` answers for the requirement read from
/// `requirement` and the version read from `version`.
pub uninterp spec fn requirement_admits(requirement: Seq<char>, version: Seq<char>) -> bool;

/// A version together with the text it was read from.
struct ParsedVersion {
    text: String,
    value: semver::Version,
}

/// A version requirement together with the text it was read from.
struct ParsedRequirement {
    text: String,
    value: semver::VersionReq,
}

impl View for ParsedVersion {
    type V = Seq<char>;

    closed spec fn view(&self) -> Seq<char> {
        self.text@
    }
}

impl View for ParsedRequirement {
    type V = Seq<char>;

    closed spec fn view(&self) -> Seq<char> {
        self.text@
    }
}

/// Calls `semver::Version::parse`. The call succeeds on the texts that
/// `is_version` names, and the value it gives is kept beside its text.
#[verifier::external_body]
fn parse_version(text: &str) -> (r: Result<ParsedVersion, semver::Error>)
    ensures
        r is Ok == is_version(text@),
        r matches Ok(v) ==> v@ == text@,
{
    match semver::Version::parse(text) {
        Ok(value) => Ok(ParsedVersion { text: text.to_owned(), value }),
        Err(e) => Err(e),
    }
}

/// Calls `semver::VersionReq::parse`. The call succeeds on the texts that
/// `is_version_req` names, and the value it gives is kept beside its text.
#[verifier::external_body]
fn parse_requirement(text: &str) -> (r: Result<ParsedRequirement, semver::Error>)
    ensures
        r is Ok == is_version_req(text@),
        r matches Ok(v) ==> v@ == text@,
{
    match semver::VersionReq::parse(text) {
        Ok(value) => Ok(ParsedRequirement { text: text.to_owned(), value }),
        Err(e) => Err(e),
    }
}

/// Calls `semver::VersionReq::matches`. Both values were read from their
/// texts by the two functions above, so the answer is the one that
/// `requirement_admits` names for those texts.
#[verifier::external_body]
fn matches(requirement: &ParsedRequirement, version: &ParsedVersion) -> (r: bool)
    ensures
        r == requirement_admits(requirement@, version@),
{
    requirement.value.matches(&version.value)
}

/// Calls `to_string` on a `semver::Error`: the words in which the crate
/// reports why a text was refused. Nothing is claimed of them.
#[verifier::external_body]
fn describe(error: &semver::Error) -> String {
    error.to_string()
}

/// Why the compatibility of two versions could not be decided.
#[derive(Debug, PartialEq, Eq)]
pub enum VersionError {
    /// The caller's version is no version; with the reason given.
    Version(String),
    /// The expected version is no requirement; with the reason given.
    Requirement(String),
}

/// Whether the version `caller` satisfies `expected`, read as a version
/// requirement. The caller's version is read first: where both texts are
/// refused, the error is that of the version.
pub fn check_version(caller: &str, expected: &str) -> (r: Result<bool, VersionError>)
    ensures
        match r {
            Ok(compatible) => {
                &&& is_version(caller@)
                &&& is_version_req(expected@)
                &&& compatible == requirement_admits(expected@, caller@)
            },
            Err(VersionError::Version(_)) => !is_version(caller@),
            Err(VersionError::Requirement(_)) => is_version(caller@) && !is_version_req(expected@),
        },
{
    let version = match parse_version(caller) {
        Ok(version) => version,
        Err(e) => {
            return Err(VersionError::Version(describe(&e)));
        },
    };
    let requirement = match parse_requirement(expected) {
        Ok(requirement) => requirement,
        Err(e) => {
            return Err(VersionError::Requirement(describe(&e)));
        },
    };
    Ok(matches(&requirement, &version))
}

/// The text of the warning for a caller of another version.
pub open spec fn warning_spec(name: Seq<char>, expected: Seq<char>, caller: Seq<char>) -> Seq<char> {
    "Warning: The "@ + name + " plugin was built against version "@ + expected
        + " of mdbook, but we're being called from version "@ + caller
}

/// The warning to print once compatibility is decided: none for a
/// compatible caller, else the sentence that names the plugin and the two
/// versions.
pub fn version_warning(name: &str, expected: &str, caller: &str, compatible: bool) -> (r: Option<
    String,
>)
    ensures
        r is None == compatible,
        r matches Some(text) ==> text@ == warning_spec(name@, expected@, caller@),
{
    if compatible {
        None
    } else {
        let mut text = String::from_str("Warning: The ");
        text.append(name);
        text.append(" plugin was built against version ");
        text.append(expected);
        text.append(" of mdbook, but we're being called from version ");
        text.append(caller);
        Some(text)
    }
}

} // verus!
