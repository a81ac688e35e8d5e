//! Versions, as validated text ordered by `pep440_rs`.

use std::str::FromStr;
use vstd::prelude::*;

verus! {

/// Whether `pep440_rs::Version::from_str` accepts `text`.
pub uninterp spec fn version_text_valid(text: Seq<char>) -> bool;

/// Whether `a` and `b` both parse as versions and the first is not greater
/// than the second in the order of `pep440_rs::Version`.
pub uninterp spec fn version_le(a: Seq<char>, b: Seq<char>) -> bool;

/// Whether `text` parses as a version for which
/// `pep440_rs::Version::any_prerelease` holds.
pub uninterp spec fn version_is_prerelease(text: Seq<char>) -> bool;

#[verifier::external_type_specification]
#[verifier::external_body]
pub struct ExVersionParseError(pep440_rs::VersionParseError);

/// `a` is strictly below `b`.
pub open spec fn version_lt(a: Seq<char>, b: Seq<char>) -> bool {
    version_le(a, b) && !version_le(b, a)
}

/// `a` and `b` denote the same version (`1.0` and `1.0.0` do).
pub open spec fn version_same(a: Seq<char>, b: Seq<char>) -> bool {
    version_le(a, b) && version_le(b, a)
}

/// Whether both texts stand for one version: they are written the same,
/// or both are versions that the order holds equal.
pub open spec fn one_version(a: Seq<char>, b: Seq<char>) -> bool {
    a == b || (is_version(a) && is_version(b) && version_same(a, b))
}

/// Standing for one version is an equivalence.
pub proof fn lemma_one_version(a: Seq<char>, b: Seq<char>, c: Seq<char>)
    ensures
        one_version(a, a),
        one_version(a, b) == one_version(b, a),
        one_version(a, b) && one_version(b, c) ==> one_version(a, c),
{
}

/// The order laws at one version: it compares with itself and with every
/// valid version, and the order is transitive through it.
pub open spec fn order_lawful_at(v: Seq<char>) -> bool {
    &&& version_le(v, v)
    &&& forall|x: Seq<char>|
        #![trigger version_le(v, x)]
        #![trigger version_le(x, v)]
        version_text_valid(x) ==> version_le(v, x) || version_le(x, v)
    &&& forall|x: Seq<char>, y: Seq<char>|
        #![trigger version_le(x, v), version_le(v, y)]
        version_le(x, v) && version_le(v, y) ==> version_le(x, y)
}

/// Text that is a version at which the order laws hold.
pub open spec fn is_version(x: Seq<char>) -> bool {
    version_text_valid(x) && order_lawful_at(x)
}

/// Calls `pep440_rs::Version::from_str` and keeps only whether it succeeded.
/// The contract claims that success is `version_text_valid`, and that the
/// `Ord` of `pep440_rs::Version` is a total preorder: a parsed version
/// compares with itself and with every other parsed version, transitively.
#[verifier::external_body]
fn check_version_text(text: &str) -> (r: Result<(), pep440_rs::VersionParseError>)
    ensures
        r is Ok <==> version_text_valid(text@),
        r is Ok ==> order_lawful_at(text@),
{
    pep440_rs::Version::from_str(text).map(|_| ())
}

/// Parses both texts with `pep440_rs::Version::from_str` and compares the
/// versions with `<=`; `false` where either does not parse.
#[verifier::external_body]
fn text_le(a: &str, b: &str) -> (r: bool)
    ensures
        r == version_le(a@, b@),
{
    match (pep440_rs::Version::from_str(a), pep440_rs::Version::from_str(b)) {
        (Ok(x), Ok(y)) => x <= y,
        _ => false,
    }
}

/// Parses the text with `pep440_rs::Version::from_str` and asks
/// `any_prerelease` of the version; `false` where it does not parse.
#[verifier::external_body]
fn text_is_prerelease(text: &str) -> (r: bool)
    ensures
        r == version_is_prerelease(text@),
{
    match pep440_rs::Version::from_str(text) {
        Ok(v) => v.any_prerelease(),
        Err(_) => false,
    }
}

/// Why a text is not a version.
#[derive(Debug, Clone, Copy, PartialEq, Eq, Structural)]
pub enum VersionError {
    /// The text does not follow the version scheme.
    Invalid,
}

/// A version: text that the version scheme accepts.
#[derive(Debug)]
pub struct Version {
    text: String,
}

impl View for Version {
    type V = Seq<char>;

    closed spec fn view(&self) -> Seq<char> {
        self.text@
    }
}

impl Version {
    /// Every version is valid text at which the order laws hold.
    #[verifier::type_invariant]
    pub open spec fn wf(&self) -> bool {
        is_version(self@)
    }

    /// Parses a version such as `1.19` or `1.0a1`.
    pub fn parse(text: &str) -> (r: Result<Version, VersionError>)
        ensures
            r is Ok <==> version_text_valid(text@),
            r matches Ok(v) ==> v@ == text@ && v.wf(),
    {
        match check_version_text(text) {
            Ok(_) => Ok(Version { text: text.to_owned() }),
            Err(_) => Err(VersionError::Invalid),
        }
    }

    /// The text of the version, as it was parsed.
    pub fn as_str(&self) -> (r: &str)
        ensures
            r@ == self@,
    {
        self.text.as_str()
    }

    /// A copy of the version.
    pub fn duplicate(&self) -> (r: Version)
        ensures
            r@ == self@,
            r.wf(),
    {
        proof {
            use_type_invariant(self);
        }
        Version { text: self.text.clone() }
    }

    /// `self <= other` in the version order.
    pub fn le(&self, other: &Version) -> (r: bool)
        ensures
            r == version_le(self@, other@),
    {
        text_le(self.text.as_str(), other.text.as_str())
    }

    /// `self < other` in the version order.
    pub fn lt(&self, other: &Version) -> (r: bool)
        ensures
            r == version_lt(self@, other@),
    {
        !text_le(other.text.as_str(), self.text.as_str())
            && text_le(self.text.as_str(), other.text.as_str())
    }

    /// Whether both denote the same version.
    pub fn same(&self, other: &Version) -> (r: bool)
        ensures
            r == version_same(self@, other@),
    {
        text_le(self.text.as_str(), other.text.as_str()) && text_le(
            other.text.as_str(),
            self.text.as_str(),
        )
    }

    /// Whether both are written the same.
    pub fn same_text(&self, other: &Version) -> (r: bool)
        ensures
            r == (self@ == other@),
    {
        self.text == other.text
    }

    /// Whether this is an alpha, beta, release-candidate or dev version.
    pub fn is_prerelease(&self) -> (r: bool)
        ensures
            r == version_is_prerelease(self@),
    {
        text_is_prerelease(self.text.as_str())
    }
}

impl Clone for Version {
    fn clone(&self) -> (r: Version)
        ensures
            r@ == self@,
    {
        self.duplicate()
    }
}

} // verus!
