use magma::converge::backend_error::BackendError;
use magma::converge::blobstore::BlobStoreError;
use magma::converge::webhook::WebhookError;

#[derive(Debug)]
enum TestError {
    Transient,
    Permanent,
    Auth,
}

impl BackendError for TestError {
    fn retryable(&self) -> bool {
        self.is_retryable()
    }

    fn kind_name(&self) -> &'static str {
        self.kind()
    }

    fn is_retryable(&self) -> bool {
        matches!(self, TestError::Transient)
    }

    fn kind(&self) -> &'static str {
        match self {
            TestError::Transient => "transient",
            TestError::Permanent => "permanent",
            TestError::Auth => "auth",
        }
    }

    fn is_auth_failure(&self) -> bool {
        matches!(self, TestError::Auth)
    }
}

#[test]
fn transient_is_retryable() {
    assert!(TestError::Transient.is_retryable());
    assert!(!TestError::Permanent.is_retryable());
    assert!(!TestError::Auth.is_retryable());
}

#[test]
fn kinds_are_distinct() {
    assert_eq!(TestError::Transient.kind(), "transient");
    assert_eq!(TestError::Permanent.kind(), "permanent");
    assert_eq!(TestError::Auth.kind(), "auth");
}

#[test]
fn auth_failure_default_is_false() {
    // Default impl is false unless overridden.
    assert!(!TestError::Transient.is_auth_failure());
    assert!(!TestError::Permanent.is_auth_failure());
    // The override:
    assert!(TestError::Auth.is_auth_failure());
}

#[test]
fn dyn_dispatchable() {
    let boxed: Box<dyn BackendError> = Box::new(TestError::Transient);
    assert!(boxed.is_retryable());
    assert_eq!(boxed.kind(), "transient");
}

#[test]
fn composes_with_existing_blobstore_error_via_blanket_impl() {
    let gone: Box<dyn BackendError> = Box::new(BlobStoreError::NotFound { path: "x".into() });
    assert!(!gone.is_retryable());
    assert_eq!(gone.kind(), "not_found");
    assert!(!gone.is_auth_failure());
    let bad: Box<dyn BackendError> = Box::new(WebhookError::MissingHeader { header: "x".into() });
    assert!(bad.is_auth_failure());
}
