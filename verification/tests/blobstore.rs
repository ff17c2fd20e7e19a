use magma::converge::artifact::{Artifact, ArtifactDigest, DigestAlgo, Provenance};
use magma::converge::blobstore::{BlobMetadata, BlobStoreError, InMemoryBlobStore};
use magma::converge::refspec::RefSpec;
use magma::time::Timestamp;

fn store() -> InMemoryBlobStore {
    InMemoryBlobStore::new()
}

#[test]
fn metadata_builder_chain() {
    let m = BlobMetadata::new("k", 42, Timestamp::at(1000))
        .with_content_type("application/json")
        .with_etag("abc-123");
    assert_eq!(m.path, "k");
    assert_eq!(m.size, 42);
    assert_eq!(m.content_type, "application/json");
    assert_eq!(m.etag, "abc-123");
}

#[test]
fn blobstore_error_retryable_only_for_transient() {
    let nf = BlobStoreError::NotFound { path: "x".into() };
    let pd = BlobStoreError::PermissionDenied {
        op: "get",
        path: "x".into(),
        detail: "no creds".into(),
    };
    let tr = BlobStoreError::Transient {
        op: "get",
        path: "x".into(),
        detail: "5xx".into(),
    };
    let pm = BlobStoreError::Permanent {
        op: "get",
        path: "x".into(),
        detail: "bucket gone".into(),
    };

    assert!(!nf.is_retryable());
    assert!(!pd.is_retryable());
    assert!(tr.is_retryable());
    assert!(!pm.is_retryable());
}

#[test]
fn blobstore_error_kind_discriminant() {
    assert_eq!(
        BlobStoreError::NotFound { path: "x".into() }.kind(),
        "not_found"
    );
    assert_eq!(
        BlobStoreError::PermissionDenied {
            op: "get",
            path: "x".into(),
            detail: String::new(),
        }
        .kind(),
        "permission_denied"
    );
    assert_eq!(
        BlobStoreError::Transient {
            op: "get",
            path: "x".into(),
            detail: String::new(),
        }
        .kind(),
        "transient"
    );
    assert_eq!(
        BlobStoreError::Permanent {
            op: "get",
            path: "x".into(),
            detail: String::new(),
        }
        .kind(),
        "permanent"
    );
}

#[test]
fn backend_name_is_memory() {
    let s = store();
    assert_eq!(s.backend(), "memory");
}

#[test]
fn put_then_get_returns_bytes() {
    let mut s = store();
    let bytes = vec![0u8, 1, 2, 3];
    s.put("foo/bar", bytes.clone()).unwrap();

    let got = s.get("foo/bar").unwrap();
    assert_eq!(got, bytes);
}

#[test]
fn put_overwrites() {
    let mut s = store();
    s.put("k", vec![1]).unwrap();
    s.put("k", vec![2, 3]).unwrap();
    assert_eq!(s.get("k").unwrap(), vec![2, 3]);
}

#[test]
fn get_missing_returns_not_found() {
    let s = store();
    let err = s.get("missing").unwrap_err();
    assert!(matches!(err, BlobStoreError::NotFound { .. }));
}

#[test]
fn head_returns_metadata_without_bytes() {
    let mut s = store();
    s.put("k", vec![1, 2, 3]).unwrap();
    let m = s.head("k").unwrap();
    assert_eq!(m.path, "k");
    assert_eq!(m.size, 3);
}

#[test]
fn head_missing_returns_not_found() {
    let s = store();
    let err = s.head("missing").unwrap_err();
    assert!(matches!(err, BlobStoreError::NotFound { .. }));
}

#[test]
fn delete_removes_object() {
    let mut s = store();
    s.put("k", vec![1]).unwrap();
    assert!(s.delete("k").is_ok());

    let err = s.get("k").unwrap_err();
    assert!(matches!(err, BlobStoreError::NotFound { .. }));
}

#[test]
fn delete_missing_returns_not_found() {
    let mut s = store();
    let err = s.delete("missing").unwrap_err();
    assert!(matches!(err, BlobStoreError::NotFound { .. }));
}

#[test]
fn list_returns_only_prefix_matches() {
    let mut s = store();
    s.put("a/1", vec![]).unwrap();
    s.put("a/2", vec![]).unwrap();
    s.put("b/1", vec![]).unwrap();

    let v = s.list("a/").unwrap();
    assert_eq!(v.len(), 2);
    let paths: Vec<_> = v.iter().map(|m| m.path.as_str()).collect();
    assert!(paths.contains(&"a/1"));
    assert!(paths.contains(&"a/2"));
    assert!(!paths.contains(&"b/1"));
}

#[test]
fn list_empty_prefix_returns_everything() {
    let mut s = store();
    s.put("x", vec![]).unwrap();
    s.put("y/z", vec![]).unwrap();

    let v = s.list("").unwrap();
    assert_eq!(v.len(), 2);
}

#[test]
fn list_no_match_returns_empty() {
    let mut s = store();
    s.put("a", vec![]).unwrap();
    let v = s.list("nope/").unwrap();
    assert!(v.is_empty());
}

#[test]
fn law_put_then_get_returns_same_bytes() {
    let mut s = store();
    for (path, bytes) in [
        ("empty", vec![]),
        ("one", vec![42]),
        ("nul-bytes", vec![0, 0, 0, 0]),
        ("nested/deeply/path", vec![255, 254, 253]),
    ] {
        s.put(path, bytes.clone()).unwrap();
        let got = s.get(path).unwrap();
        assert_eq!(got, bytes, "round-trip failed for path={path:?}");
    }
}

#[test]
fn law_delete_then_get_returns_not_found() {
    let mut s = store();
    s.put("k", vec![1]).unwrap();
    s.delete("k").unwrap();
    let err = s.get("k").unwrap_err();
    assert!(matches!(err, BlobStoreError::NotFound { .. }));
}

#[test]
fn dyn_dispatch_works() {
    let mut s = InMemoryBlobStore::new();
    s.put("k", vec![1, 2]).unwrap();
    assert_eq!(s.get("k").unwrap(), vec![1, 2]);
    assert_eq!(s.backend(), "memory");
}

#[test]
fn composes_with_artifact() {
    let mut s = InMemoryBlobStore::new();
    s.put("releases/v1.tar.gz", vec![1, 2, 3]).unwrap();

    let bytes = s.get("releases/v1.tar.gz").unwrap();
    // Caller computes the digest (e.g. via blake3 crate or tameshi);
    // here we use a placeholder.
    let placeholder_hex: String = std::iter::repeat('a').take(64).collect();
    let digest = ArtifactDigest::new(DigestAlgo::Blake3, &placeholder_hex).unwrap();
    let provenance = Provenance::new(
        "s3://my-bucket/releases/v1.tar.gz",
        RefSpec::Name("releases/v1.tar.gz".into()),
        "v1.tar.gz",
        Timestamp::at(1000),
    );
    let artifact = Artifact::new(digest, provenance, bytes);

    assert_eq!(artifact.payload, vec![1, 2, 3]);
}
