use magma::converge::artifact::{Artifact, ArtifactDigest, DigestAlgo, DigestError, Provenance};
use magma::converge::refspec::RefSpec;
use magma::time::{Span, Timestamp};

fn t(secs: i64) -> Timestamp {
    Timestamp::at(secs)
}

fn hex64(c: char) -> String {
    std::iter::repeat(c).take(64).collect()
}

fn provenance() -> Provenance {
    Provenance::new(
        "https://github.com/example/repo",
        RefSpec::Branch("main".into()),
        "a1b2c3d4e5f6789012345678901234567890abcd",
        t(1000),
    )
}

fn digest_blake3_aaa() -> ArtifactDigest {
    ArtifactDigest::new(DigestAlgo::Blake3, &hex64('a')).unwrap()
}

#[derive(Debug, Clone, PartialEq, Eq)]
struct TarballBytes(Vec<u8>);

#[derive(Debug, Clone, PartialEq, Eq)]
struct HelmChart {
    name: String,
    version: String,
}

#[test]
fn digest_algo_default_is_blake3() {
    assert_eq!(DigestAlgo::default(), DigestAlgo::Blake3);
}

#[test]
fn digest_algo_hex_lengths() {
    assert_eq!(DigestAlgo::Blake3.hex_len(), 64);
    assert_eq!(DigestAlgo::Sha256.hex_len(), 64);
    assert_eq!(DigestAlgo::Sha512.hex_len(), 128);
}

#[test]
fn digest_validates_length() {
    // Too short
    let r = ArtifactDigest::new(DigestAlgo::Blake3, "abc");
    assert!(matches!(r, Err(DigestError::WrongLength { .. })));

    // Right length
    let r = ArtifactDigest::new(DigestAlgo::Blake3, &hex64('a'));
    assert!(r.is_ok());

    // SHA-512 length
    let long: String = std::iter::repeat('a').take(128).collect();
    assert!(ArtifactDigest::new(DigestAlgo::Sha512, &long).is_ok());
}

#[test]
fn digest_rejects_uppercase_and_non_hex() {
    let upper: String = std::iter::repeat('A').take(64).collect();
    let r = ArtifactDigest::new(DigestAlgo::Blake3, &upper);
    assert!(matches!(r, Err(DigestError::NotLowercaseHex(_))));

    let bad: String = std::iter::repeat('z').take(64).collect();
    let r = ArtifactDigest::new(DigestAlgo::Blake3, &bad);
    assert!(matches!(r, Err(DigestError::NotLowercaseHex(_))));
}

#[test]
fn digest_oci_form_round_trip() {
    let d = digest_blake3_aaa();
    let s = d.to_oci_form();
    assert!(s.starts_with("blake3:"));
    assert_eq!(s, format!("blake3:{}", hex64('a')));
    assert_eq!(d.to_oci_form(), s);
}

#[test]
fn digest_unchecked_skips_validation() {
    // Useful for tests + internal use where bytes are known-good.
    let d = ArtifactDigest::unchecked(DigestAlgo::Blake3, "short");
    assert_eq!(d.hex, "short");
}

#[test]
fn provenance_composes_ref_spec() {
    let p = provenance();
    assert_eq!(p.source_url, "https://github.com/example/repo");
    match &p.ref_spec {
        RefSpec::Branch(b) => assert_eq!(b, "main"),
        other => panic!("expected Branch, got {other:?}"),
    }
}

#[test]
fn artifact_is_fresh_within_limit() {
    let a = Artifact::new(digest_blake3_aaa(), provenance(), TarballBytes(vec![1, 2, 3]));
    // fetched_at = 1000; now = 1300; limit = 600s → fresh
    assert!(a.is_fresh(Span::from_secs(600), t(1300)));
}

#[test]
fn artifact_is_not_fresh_past_limit() {
    let a = Artifact::new(digest_blake3_aaa(), provenance(), TarballBytes(vec![1, 2, 3]));
    // fetched_at = 1000; now = 2000; limit = 600s → stale
    assert!(!a.is_fresh(Span::from_secs(600), t(2000)));
}

#[test]
fn artifact_is_fresh_exactly_at_limit() {
    let a = Artifact::new(digest_blake3_aaa(), provenance(), TarballBytes(vec![1]));
    // fetched_at = 1000; now = 1600; limit = 600s → boundary: fresh
    assert!(a.is_fresh(Span::from_secs(600), t(1600)));
}

#[test]
fn artifact_clock_skew_returns_not_fresh() {
    // now < fetched_at → defensive: not fresh, never reports a
    // future-fetched artifact as cached.
    let a = Artifact::new(digest_blake3_aaa(), provenance(), TarballBytes(vec![1]));
    assert!(!a.is_fresh(Span::from_secs(99_999), t(500)));
}

#[test]
fn artifact_content_eq_compares_digest_only() {
    let a1 = Artifact::new(digest_blake3_aaa(), provenance(), TarballBytes(vec![1]));

    // Same digest, different provenance (mirror), different payload type.
    let mut prov2 = provenance();
    prov2.source_url = "https://mirror.example.com/repo".into();
    let a2 = Artifact::new(digest_blake3_aaa(), prov2, vec![1u8, 2, 3]);

    assert!(a1.content_eq(&a2), "same digest → content_eq");

    // Different digest → not content_eq.
    let other_digest = ArtifactDigest::new(DigestAlgo::Blake3, &hex64('b')).unwrap();
    let a3 = Artifact::new(other_digest, provenance(), TarballBytes(vec![1]));
    assert!(!a1.content_eq(&a3));
}

#[test]
fn artifact_payload_typed_not_opaque_bytes() {
    // Demonstrates the generic-payload value of Artifact<T>: the
    // payload is typed at the source-controller layer, not opaque
    // bytes. FluxCD's `artifact` block hides this; Artifact<T>
    // exposes it.

    let a = Artifact::new(
        digest_blake3_aaa(),
        provenance(),
        HelmChart {
            name: "nginx".into(),
            version: "1.2.3".into(),
        },
    );

    assert_eq!(a.payload.name, "nginx");
    assert_eq!(a.payload.version, "1.2.3");
}
