use magma::converge::meta::{ObjectMeta, OwnerReference};
use magma::converge::selector::LabelSelector;
use magma::time::Timestamp;

fn ts(secs: i64) -> Timestamp {
    Timestamp::at(secs)
}

#[test]
fn object_meta_new_sets_just_name() {
    let m = ObjectMeta::new("my-object");
    assert_eq!(m.name, "my-object");
    assert!(m.namespace.is_empty());
    assert!(m.labels.is_empty());
}

#[test]
fn object_meta_namespaced_constructor() {
    let m = ObjectMeta::namespaced("my-object", "kube-system");
    assert_eq!(m.name, "my-object");
    assert_eq!(m.namespace, "kube-system");
}

#[test]
fn object_meta_fluent_builders() {
    let m = ObjectMeta::namespaced("my-deploy", "default")
        .with_label("app", "nginx")
        .with_label("tier", "frontend")
        .with_annotation("kubectl.kubernetes.io/last-applied-configuration", "{}")
        .with_finalizer("foreground-cascading-deletion")
        .with_owner_reference(
            OwnerReference::new("apps/v1", "ReplicaSet", "rs-1", "uid-rs1")
                .with_controller(),
        );

    assert_eq!(m.labels.len(), 2);
    assert_eq!(m.annotations.len(), 1);
    assert_eq!(m.finalizers.len(), 1);
    assert_eq!(m.owner_references.len(), 1);
}

#[test]
fn is_terminating_true_when_deletion_timestamp_set() {
    let mut m = ObjectMeta::new("x");
    assert!(!m.is_terminating());
    m.deletion_timestamp = Some(ts(2000));
    assert!(m.is_terminating());
}

#[test]
fn has_finalizer_finds_by_name() {
    let m = ObjectMeta::new("x")
        .with_finalizer("foregroundDeletion")
        .with_finalizer("my-controller.example.io/cleanup");
    assert!(m.has_finalizer("foregroundDeletion"));
    assert!(m.has_finalizer("my-controller.example.io/cleanup"));
    assert!(!m.has_finalizer("nonexistent"));
}

#[test]
fn add_finalizer_idempotent() {
    let mut m = ObjectMeta::new("x");
    assert!(m.add_finalizer("foo"));
    assert!(!m.add_finalizer("foo"), "second add returns false");
    assert_eq!(m.finalizers.len(), 1);
}

#[test]
fn remove_finalizer_returns_presence() {
    let mut m = ObjectMeta::new("x").with_finalizer("foo");
    assert!(m.remove_finalizer("foo"));
    assert!(m.finalizers.is_empty());
    assert!(!m.remove_finalizer("foo"), "second remove returns false");
}

#[test]
fn controller_returns_singular_controller_owner() {
    let m = ObjectMeta::new("x")
        .with_owner_reference(OwnerReference::new(
            "v1",
            "ConfigMap",
            "non-ctrl",
            "uid-cm",
        ))
        .with_owner_reference(
            OwnerReference::new("apps/v1", "RS", "rs-1", "uid-rs1").with_controller(),
        );

    let ctrl = m.controller().expect("expected controller");
    assert_eq!(ctrl.uid, "uid-rs1");
}

#[test]
fn controller_none_when_no_owner_marked() {
    let m = ObjectMeta::new("x").with_owner_reference(OwnerReference::new(
        "v1",
        "ConfigMap",
        "owner",
        "uid-cm",
    ));
    assert!(m.controller().is_none());
}

#[test]
fn is_controlled_by_matches_controller_uid() {
    let m = ObjectMeta::new("x").with_owner_reference(
        OwnerReference::new("apps/v1", "RS", "rs-1", "uid-rs1").with_controller(),
    );
    assert!(m.is_controlled_by("uid-rs1"));
    assert!(!m.is_controlled_by("uid-other"));
}

#[test]
fn is_controlled_by_false_when_no_controller_set() {
    let m = ObjectMeta::new("x").with_owner_reference(OwnerReference::new(
        "v1",
        "ConfigMap",
        "owner",
        "uid-cm",
    ));
    assert!(!m.is_controlled_by("uid-cm"));
}

#[test]
fn to_resource_ref_namespaced() {
    let m = ObjectMeta::namespaced("nginx", "default");
    let r = m.to_resource_ref("apps", "v1", "Deployment");
    assert_eq!(r.group, "apps");
    assert_eq!(r.version, "v1");
    assert_eq!(r.kind, "Deployment");
    assert_eq!(r.namespace.as_deref(), Some("default"));
    assert_eq!(r.name, "nginx");
}

#[test]
fn to_resource_ref_cluster_scoped_when_no_namespace() {
    let m = ObjectMeta::new("widgets.example.io");
    let r = m.to_resource_ref("apiextensions.k8s.io", "v1", "CustomResourceDefinition");
    assert!(r.is_cluster_scoped());
    assert!(r.namespace.is_none());
    assert_eq!(r.name, "widgets.example.io");
}

#[test]
fn label_selector_matches_object_meta_labels() {
    let m = ObjectMeta::new("nginx")
        .with_label("app", "nginx")
        .with_label("tier", "frontend");

    let selector = LabelSelector::from_label("app", "nginx");
    assert!(selector.matches(&m.labels));

    let strict = LabelSelector::new()
        .with_label("app", "nginx")
        .with_label("tier", "frontend");
    assert!(strict.matches(&m.labels));

    let too_strict = LabelSelector::new()
        .with_label("app", "nginx")
        .with_label("tier", "backend");
    assert!(!too_strict.matches(&m.labels));
}
