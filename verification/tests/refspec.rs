use magma::converge::refspec::{RefSpec, RefSpecParseError};

#[test]
fn immutable_variants_classified_correctly() {
    assert!(RefSpec::Commit("abc".into()).is_immutable());
    assert!(RefSpec::Digest("sha256:abc".into()).is_immutable());
    assert!(!RefSpec::Branch("main".into()).is_immutable());
    assert!(!RefSpec::Tag("v1".into()).is_immutable());
    assert!(!RefSpec::Semver("^1.0".into()).is_immutable());
    assert!(!RefSpec::Name("foo".into()).is_immutable());
}

#[test]
fn floating_variants_classified_correctly() {
    assert!(RefSpec::Branch("main".into()).is_floating());
    assert!(RefSpec::Tag("v1".into()).is_floating());
    assert!(RefSpec::Semver("^1.0".into()).is_floating());
    assert!(RefSpec::Name("foo".into()).is_floating());
    assert!(!RefSpec::Commit("abc".into()).is_floating());
    assert!(!RefSpec::Digest("sha256:abc".into()).is_floating());
}

#[test]
fn immutable_and_floating_are_complementary() {
    // Every variant is either immutable XOR floating — never both, never neither.
    for spec in [
        RefSpec::Branch("a".into()),
        RefSpec::Tag("a".into()),
        RefSpec::Semver("a".into()),
        RefSpec::Commit("a".into()),
        RefSpec::Name("a".into()),
        RefSpec::Digest("a".into()),
    ] {
        assert_ne!(spec.is_immutable(), spec.is_floating(),
            "variant {spec:?} must be exactly one of immutable or floating");
    }
}

#[test]
fn value_returns_inner_string() {
    assert_eq!(RefSpec::Branch("main".into()).value(), "main");
    assert_eq!(RefSpec::Tag("v1.2.3".into()).value(), "v1.2.3");
    assert_eq!(RefSpec::Digest("sha256:abc".into()).value(), "sha256:abc");
}

#[test]
fn kind_returns_stable_discriminant() {
    assert_eq!(RefSpec::Branch("x".into()).kind(), "branch");
    assert_eq!(RefSpec::Tag("x".into()).kind(), "tag");
    assert_eq!(RefSpec::Semver("x".into()).kind(), "semver");
    assert_eq!(RefSpec::Commit("x".into()).kind(), "commit");
    assert_eq!(RefSpec::Name("x".into()).kind(), "name");
    assert_eq!(RefSpec::Digest("x".into()).kind(), "digest");
}

#[test]
fn display_round_trips_through_parse() {
    let specs = [
        RefSpec::Branch("main".into()),
        RefSpec::Tag("v1.2.3".into()),
        RefSpec::Semver("^1.2.0".into()),
        RefSpec::Commit("a1b2c3d".into()),
        RefSpec::Name("my-artifact".into()),
    ];
    for s in &specs {
        let formatted = s.text();
        let parsed: RefSpec = formatted.parse().unwrap();
        assert_eq!(parsed, *s, "round-trip failed for {s:?} -> {formatted:?}");
    }
}

#[test]
fn digest_value_containing_colon_round_trips() {
    // Digest values legitimately contain ':' (sha256:abc...). The
    // parser only splits at the FIRST ':' so the rest is preserved.
    let d = RefSpec::Digest("sha256:abc123def456".into());
    let parsed: RefSpec = d.text().parse().unwrap();
    assert_eq!(parsed, d);
}

#[test]
fn parse_rejects_missing_separator() {
    let err = "no-colon".parse::<RefSpec>().unwrap_err();
    assert!(matches!(err, RefSpecParseError::MissingSeparator(_)));
}

#[test]
fn parse_rejects_empty_value() {
    let err = "branch:".parse::<RefSpec>().unwrap_err();
    assert!(matches!(err, RefSpecParseError::EmptyValue(_)));
}

#[test]
fn parse_rejects_unknown_kind() {
    let err = "weird:value".parse::<RefSpec>().unwrap_err();
    match err {
        RefSpecParseError::UnknownKind { kind, .. } => assert_eq!(kind, "weird"),
        other => panic!("expected UnknownKind, got {other:?}"),
    }
}

#[test]
fn what_was_read_is_written_as_it_was() {
    for text in ["branch:main", "digest:sha256:abc", "semver:>=1.0", "name:refs/pull/1"] {
        assert_eq!(text.parse::<RefSpec>().unwrap().text(), text);
    }
}
