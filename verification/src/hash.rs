//! Content hashes of artifacts.

use std::str::FromStr;
use vstd::prelude::*;

verus! {

/// The hash algorithms that are recognized.
#[derive(Debug, Clone, Copy, PartialEq, Eq, Structural)]
pub enum HashAlgorithm {
    Md5,
    Sha256,
    Sha384,
    Sha512,
    Blake2b,
}

/// The name of an algorithm in a written digest.
pub open spec fn algorithm_name(a: HashAlgorithm) -> Seq<char> {
    match a {
        HashAlgorithm::Md5 => "md5"@,
        HashAlgorithm::Sha256 => "sha256"@,
        HashAlgorithm::Sha384 => "sha384"@,
        HashAlgorithm::Sha512 => "sha512"@,
        HashAlgorithm::Blake2b => "blake2b"@,
    }
}

/// Whether `text` is the name of the algorithm, a colon and the digest, and
/// the digest holds no colon.
pub open spec fn written_as(text: Seq<char>, a: HashAlgorithm, digest: Seq<char>) -> bool {
    text == algorithm_name(a) + seq![':'] + digest && !digest.contains(':')
}

#[verifier::external_type_specification]
#[verifier::external_body]
pub struct ExHashError(uv_pypi_types::HashError);

/// Calls `uv_pypi_types::HashDigest::from_str`. As that function is
/// written, it accepts exactly the texts made of the name of one of the five
/// algorithms, one colon and a digest without a colon, and gives the
/// algorithm and the digest as they stand.
#[verifier::external_body]
fn parse_digest(text: &str) -> (r: Result<(HashAlgorithm, String), uv_pypi_types::HashError>)
    ensures
        match r {
            Ok((a, d)) => written_as(text@, a, d@),
            Err(_) => forall|a: HashAlgorithm, d: Seq<char>| !written_as(text@, a, d),
        },
{
    uv_pypi_types::HashDigest::from_str(text).map(
        |h|
            (
                match h.algorithm {
                    uv_pypi_types::HashAlgorithm::Md5 => HashAlgorithm::Md5,
                    uv_pypi_types::HashAlgorithm::Sha256 => HashAlgorithm::Sha256,
                    uv_pypi_types::HashAlgorithm::Sha384 => HashAlgorithm::Sha384,
                    uv_pypi_types::HashAlgorithm::Sha512 => HashAlgorithm::Sha512,
                    uv_pypi_types::HashAlgorithm::Blake2b => HashAlgorithm::Blake2b,
                },
                h.digest.to_string(),
            ),
    )
}

/// Why a text is not a digest.
#[derive(Debug, Clone, Copy, PartialEq, Eq, Structural)]
pub enum DigestError {
    /// The text is not `<algorithm>:<digest>` with a recognized algorithm.
    Invalid,
}

/// The mathematical value of a digest.
pub struct HashDigestView {
    pub algorithm: HashAlgorithm,
    pub digest: Seq<char>,
}

/// The digest of an artifact under one algorithm.
#[derive(Debug)]
pub struct HashDigest {
    algorithm: HashAlgorithm,
    digest: String,
}

impl View for HashDigest {
    type V = HashDigestView;

    closed spec fn view(&self) -> HashDigestView {
        HashDigestView { algorithm: self.algorithm, digest: self.digest@ }
    }
}

impl HashDigest {
    /// The digest under this algorithm.
    pub fn new(algorithm: HashAlgorithm, digest: &str) -> (r: HashDigest)
        ensures
            r@ == (HashDigestView { algorithm, digest: digest@ }),
    {
        HashDigest { algorithm, digest: digest.to_owned() }
    }

    /// Reads a digest written as `<algorithm>:<digest>`.
    pub fn parse(text: &str) -> (r: Result<HashDigest, DigestError>)
        ensures
            match r {
                Ok(h) => written_as(text@, h@.algorithm, h@.digest),
                Err(_) => forall|a: HashAlgorithm, d: Seq<char>| !written_as(text@, a, d),
            },
    {
        match parse_digest(text) {
            Ok((algorithm, digest)) => Ok(HashDigest { algorithm, digest }),
            Err(_) => Err(DigestError::Invalid),
        }
    }

    /// The algorithm of the digest.
    pub fn algorithm(&self) -> (r: HashAlgorithm)
        ensures
            r == self@.algorithm,
    {
        self.algorithm
    }

    /// The digest as text.
    pub fn digest(&self) -> (r: &str)
        ensures
            r@ == self@.digest,
    {
        self.digest.as_str()
    }

    /// A copy of the digest.
    pub fn duplicate(&self) -> (r: HashDigest)
        ensures
            r@ == self@,
    {
        HashDigest { algorithm: self.algorithm, digest: self.digest.clone() }
    }

    /// Whether both are the same digest under the same algorithm.
    pub fn same(&self, other: &HashDigest) -> (r: bool)
        ensures
            r == (self@ == other@),
    {
        self.algorithm == other.algorithm && self.digest == other.digest
    }
}

/// The views of a list of digests.
pub open spec fn digest_views(hs: Seq<HashDigest>) -> Seq<HashDigestView> {
    Seq::new(hs.len(), |i: int| hs[i]@)
}

/// Whether one of the digests is `h`.
pub open spec fn has_digest(hs: Seq<HashDigestView>, h: HashDigestView) -> bool {
    exists|i: int| 0 <= i < hs.len() && #[trigger] hs[i] == h
}

/// Whether one of the digests is under the algorithm `a`.
pub open spec fn has_algorithm(hs: Seq<HashDigestView>, a: HashAlgorithm) -> bool {
    exists|i: int| 0 <= i < hs.len() && (#[trigger] hs[i]).algorithm == a
}

/// Whether one of the digests is `h`.
pub fn holds_digest(hs: &Vec<HashDigest>, h: &HashDigest) -> (r: bool)
    ensures
        r == has_digest(digest_views(hs@), h@),
{
    let mut i: usize = 0;
    while i < hs.len()
        invariant
            i <= hs.len(),
            forall|j: int| 0 <= j < i ==> (#[trigger] digest_views(hs@)[j]) != h@,
        decreases hs.len() - i,
    {
        if hs[i].same(h) {
            assert(digest_views(hs@)[i as int] == h@);
            return true;
        }
        i += 1;
    }
    false
}

/// Whether one of the digests is under the algorithm `a`.
pub fn holds_algorithm(hs: &Vec<HashDigest>, a: HashAlgorithm) -> (r: bool)
    ensures
        r == has_algorithm(digest_views(hs@), a),
{
    let mut i: usize = 0;
    while i < hs.len()
        invariant
            i <= hs.len(),
            forall|j: int| 0 <= j < i ==> (#[trigger] digest_views(hs@)[j]).algorithm != a,
        decreases hs.len() - i,
    {
        if hs[i].algorithm() == a {
            assert(digest_views(hs@)[i as int].algorithm == a);
            return true;
        }
        i += 1;
    }
    false
}

/// A copy of a list of digests.
pub fn duplicate_digests(hs: &Vec<HashDigest>) -> (r: Vec<HashDigest>)
    ensures
        digest_views(r@) == digest_views(hs@),
{
    let mut r: Vec<HashDigest> = Vec::new();
    let mut i: usize = 0;
    while i < hs.len()
        invariant
            i <= hs.len(),
            r.len() == i,
            forall|j: int| 0 <= j < i ==> (#[trigger] r[j])@ == hs[j]@,
        decreases hs.len() - i,
    {
        r.push(hs[i].duplicate());
        i += 1;
    }
    assert(digest_views(r@) =~= digest_views(hs@));
    r
}

} // verus!
