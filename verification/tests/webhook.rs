use magma::converge::webhook::{
    HeaderTokenValidator, NoOpValidator, WebhookError, WebhookKind, WebhookRequest,
    WebhookValidator,
};
use magma::json::Json;

#[test]
fn webhook_kind_names() {
    assert_eq!(WebhookKind::Generic.name(), "generic");
    assert_eq!(WebhookKind::GenericHmac.name(), "generic-hmac");
    assert_eq!(WebhookKind::Github.name(), "github");
    assert_eq!(WebhookKind::Cdevents.name(), "cdevents");
}

#[test]
fn request_builder_chain() {
    let r = WebhookRequest::new("POST", "/hooks/abc")
        .with_header("X-Github-Event", "push")
        .with_header("Content-Type", "application/json")
        .with_body(br#"{"ref":"refs/heads/main"}"#.to_vec());

    assert_eq!(r.method, "POST");
    assert_eq!(r.path, "/hooks/abc");
    assert_eq!(r.headers.len(), 2);
    assert!(r.body.starts_with(b"{"));
}

#[test]
fn header_lookup_is_case_insensitive() {
    let r = WebhookRequest::new("POST", "/")
        .with_header("X-Github-Event", "push");
    assert_eq!(r.header("X-Github-Event"), Some("push"));
    assert_eq!(r.header("x-github-event"), Some("push"));
    assert_eq!(r.header("X-GITHUB-EVENT"), Some("push"));
    assert_eq!(r.header("nonexistent"), None);
}

#[test]
fn webhook_error_retryable_only_for_transient() {
    let e = WebhookError::Transient {
        detail: "JWKS 503".into(),
    };
    assert!(e.is_retryable());
    let e = WebhookError::InvalidSignature {
        detail: "bad sig".into(),
    };
    assert!(!e.is_retryable());
    let e = WebhookError::MissingHeader {
        header: "X-Sig".into(),
    };
    assert!(!e.is_retryable());
}

#[test]
fn error_auth_failures_classified() {
    assert!(
        WebhookError::MissingHeader {
            header: "x".into()
        }
        .is_auth_failure()
    );
    assert!(
        WebhookError::InvalidSignature {
            detail: "x".into()
        }
        .is_auth_failure()
    );
    assert!(
        !WebhookError::PayloadDecode {
            detail: "x".into()
        }
        .is_auth_failure()
    );
    assert!(
        !WebhookError::Transient {
            detail: "x".into()
        }
        .is_auth_failure()
    );
}

#[test]
fn webhook_error_kind_discriminant() {
    assert_eq!(
        WebhookError::MissingHeader {
            header: "x".into()
        }
        .kind(),
        "missing_header"
    );
    assert_eq!(
        WebhookError::InvalidSignature {
            detail: "x".into()
        }
        .kind(),
        "invalid_signature"
    );
    assert_eq!(
        WebhookError::Transient {
            detail: "x".into()
        }
        .kind(),
        "transient"
    );
}

#[test]
fn noop_accepts_anything() {
    let v = NoOpValidator;
    let req = WebhookRequest::new("POST", "/").with_body(b"{}".to_vec());
    let event = v.validate(&req).unwrap();
    assert_eq!(event.kind, WebhookKind::Generic);
}

#[test]
fn noop_decodes_json_body_when_possible() {
    let v = NoOpValidator;
    let req = WebhookRequest::new("POST", "/").with_body(br#"{"a":1}"#.to_vec());
    let event = v.validate(&req).unwrap();
    assert_eq!(event.payload.get("a"), Some(&Json::integer(1)));
}

#[test]
fn noop_returns_null_payload_on_invalid_json() {
    let v = NoOpValidator;
    let req = WebhookRequest::new("POST", "/").with_body(b"not json".to_vec());
    let event = v.validate(&req).unwrap();
    assert_eq!(event.payload, Json::Null);
}

#[test]
fn noop_preserves_headers_in_event() {
    let v = NoOpValidator;
    let req = WebhookRequest::new("POST", "/")
        .with_header("X-Github-Event", "push");
    let event = v.validate(&req).unwrap();
    assert_eq!(event.headers.get("X-Github-Event").map(|s| s.as_str()), Some("push"));
}

#[test]
fn header_token_accepts_matching() {
    let v = HeaderTokenValidator::new("X-Auth-Token", "secret123");
    let req = WebhookRequest::new("POST", "/").with_header("X-Auth-Token", "secret123");
    let event = v.validate(&req).unwrap();
    assert_eq!(event.kind, WebhookKind::HeaderToken);
}

#[test]
fn header_token_rejects_missing_header() {
    let v = HeaderTokenValidator::new("X-Auth-Token", "secret123");
    let req = WebhookRequest::new("POST", "/");
    let err = v.validate(&req).unwrap_err();
    assert!(matches!(err, WebhookError::MissingHeader { .. }));
    assert!(err.is_auth_failure());
}

#[test]
fn header_token_rejects_mismatched_value() {
    let v = HeaderTokenValidator::new("X-Auth-Token", "secret123");
    let req = WebhookRequest::new("POST", "/").with_header("X-Auth-Token", "wrong");
    let err = v.validate(&req).unwrap_err();
    assert!(matches!(err, WebhookError::InvalidSignature { .. }));
    assert!(err.is_auth_failure());
}

#[test]
fn header_token_case_insensitive_header_lookup() {
    // HTTP headers are case-insensitive — the validator MUST find
    // its expected header regardless of casing in the request.
    let v = HeaderTokenValidator::new("X-Auth-Token", "secret");
    let req = WebhookRequest::new("POST", "/").with_header("x-auth-token", "secret");
    let event = v.validate(&req).unwrap();
    assert_eq!(event.kind, WebhookKind::HeaderToken);
}

#[test]
fn dyn_dispatch_through_box() {
    let validators: Vec<Box<dyn WebhookValidator>> = vec![
        Box::new(NoOpValidator),
        Box::new(HeaderTokenValidator::new("X-Auth", "s")),
    ];

    let req = WebhookRequest::new("POST", "/").with_header("X-Auth", "s");
    for v in &validators {
        let _ = v.validate(&req); // both succeed for this req
    }
}

#[test]
fn validators_have_distinct_kinds() {
    assert_eq!(NoOpValidator.kind(), WebhookKind::Generic);
    assert_eq!(
        HeaderTokenValidator::new("h", "v").kind(),
        WebhookKind::HeaderToken
    );
}
