use resolution::hash::{holds_algorithm, holds_digest, DigestError, HashAlgorithm, HashDigest};

#[test]
fn digests_are_read_with_their_algorithm() {
    let h = HashDigest::parse("sha256:40d10de9a8b7d8e2cb83b4b2c0400fb1a7e0f5d6d3f2c7d0a9b1c2d3e4f5a6b7").unwrap();
    assert_eq!(h.algorithm(), HashAlgorithm::Sha256);
    assert_eq!(h.digest(), "40d10de9a8b7d8e2cb83b4b2c0400fb1a7e0f5d6d3f2c7d0a9b1c2d3e4f5a6b7");
    assert_eq!(HashDigest::parse("md5:abc").unwrap().algorithm(), HashAlgorithm::Md5);
    assert_eq!(HashDigest::parse("sha384:abc").unwrap().algorithm(), HashAlgorithm::Sha384);
    assert_eq!(HashDigest::parse("sha512:abc").unwrap().algorithm(), HashAlgorithm::Sha512);
    assert_eq!(HashDigest::parse("blake2b:abc").unwrap().algorithm(), HashAlgorithm::Blake2b);
}

#[test]
fn malformed_digests_are_refused() {
    for text in ["", "sha256", "sha256:ab:cd", "sha1:abcd", "SHA256:abcd", ":abcd"] {
        assert_eq!(HashDigest::parse(text).unwrap_err(), DigestError::Invalid);
    }
}

#[test]
fn digests_are_found_in_a_list() {
    let list = vec![HashDigest::new(HashAlgorithm::Md5, "aa"), HashDigest::new(HashAlgorithm::Sha256, "bb")];
    assert!(holds_digest(&list, &HashDigest::new(HashAlgorithm::Sha256, "bb")));
    assert!(!holds_digest(&list, &HashDigest::new(HashAlgorithm::Sha256, "aa")));
    assert!(!holds_digest(&list, &HashDigest::new(HashAlgorithm::Sha512, "bb")));
    assert!(holds_algorithm(&list, HashAlgorithm::Md5));
    assert!(!holds_algorithm(&list, HashAlgorithm::Blake2b));
    assert!(!holds_algorithm(&Vec::new(), HashAlgorithm::Md5));
    assert!(HashDigest::new(HashAlgorithm::Md5, "aa").same(&list[0].duplicate()));
}
