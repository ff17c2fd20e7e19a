use magma::converge::manifest::{Manifest, TypeMeta};
use magma::converge::meta::ObjectMeta;
use magma::converge::selector::LabelSelector;

#[derive(Debug, Clone, PartialEq, Eq)]
struct DeploymentSpec {
    replicas: u32,
    image: String,
}

#[derive(Debug, Clone, PartialEq, Eq)]
struct DeploymentStatus {
    ready_replicas: u32,
    observed_generation: i64,
}

fn meta() -> ObjectMeta {
    ObjectMeta::namespaced("nginx", "default").with_label("app", "nginx")
}

fn spec() -> DeploymentSpec {
    DeploymentSpec {
        replicas: 3,
        image: "nginx:1.25".into(),
    }
}

#[test]
fn type_meta_new_sets_api_version_and_kind() {
    let t = TypeMeta::new("apps/v1", "Deployment");
    assert_eq!(t.api_version, "apps/v1");
    assert_eq!(t.kind, "Deployment");
}

#[test]
fn from_gvk_with_group() {
    let t = TypeMeta::from_gvk("apps", "v1", "Deployment");
    assert_eq!(t.api_version, "apps/v1");
    assert_eq!(t.kind, "Deployment");
}

#[test]
fn from_gvk_core_group_emits_version_only() {
    let t = TypeMeta::from_gvk("", "v1", "Pod");
    assert_eq!(t.api_version, "v1", "core group: no group prefix");
    assert_eq!(t.kind, "Pod");
}

#[test]
fn group_version_parsing_with_group() {
    let t = TypeMeta::new("apps/v1", "Deployment");
    assert_eq!(t.group(), "apps");
    assert_eq!(t.version(), "v1");
    assert!(!t.is_core());
}

#[test]
fn group_version_parsing_core_group() {
    let t = TypeMeta::new("v1", "Pod");
    assert_eq!(t.group(), "");
    assert_eq!(t.version(), "v1");
    assert!(t.is_core());
}

#[test]
fn group_version_parsing_complex_group() {
    // Multi-segment group like "networking.k8s.io/v1".
    let t = TypeMeta::new("networking.k8s.io/v1", "NetworkPolicy");
    assert_eq!(t.group(), "networking.k8s.io");
    assert_eq!(t.version(), "v1");
    assert!(!t.is_core());
}

#[test]
fn manifest_new_constructs_with_no_status() {
    let m: Manifest<DeploymentSpec> = Manifest::new("apps/v1", "Deployment", meta(), spec());
    assert_eq!(m.type_meta.api_version, "apps/v1");
    assert_eq!(m.type_meta.kind, "Deployment");
    assert_eq!(m.metadata.name, "nginx");
    assert_eq!(m.spec_, spec());
    assert!(m.status.is_none());
    assert!(!m.has_status());
}

#[test]
fn manifest_from_gvk_constructs_typed_api_version() {
    let m: Manifest<DeploymentSpec> =
        Manifest::from_gvk("apps", "v1", "Deployment", meta(), spec());
    assert_eq!(m.type_meta.api_version, "apps/v1");
}

#[test]
fn manifest_with_status_sets_typed_status() {
    let m = Manifest::<DeploymentSpec, DeploymentStatus>::from_gvk(
        "apps",
        "v1",
        "Deployment",
        meta(),
        spec(),
    )
    .with_status(DeploymentStatus {
        ready_replicas: 3,
        observed_generation: 5,
    });

    assert!(m.has_status());
    assert_eq!(m.status.as_ref().unwrap().observed_generation, 5);
    assert_eq!(m.status.as_ref().unwrap().ready_replicas, 3);
}

#[test]
fn manifest_to_resource_ref_namespaced() {
    let m: Manifest<DeploymentSpec> =
        Manifest::from_gvk("apps", "v1", "Deployment", meta(), spec());
    let r = m.to_resource_ref();
    assert_eq!(r.group, "apps");
    assert_eq!(r.version, "v1");
    assert_eq!(r.kind, "Deployment");
    assert_eq!(r.namespace.as_deref(), Some("default"));
    assert_eq!(r.name, "nginx");
}

#[test]
fn manifest_to_resource_ref_cluster_scoped_when_no_namespace() {
    let m: Manifest<DeploymentSpec> = Manifest::from_gvk(
        "apiextensions.k8s.io",
        "v1",
        "CustomResourceDefinition",
        ObjectMeta::new("widgets.example.io"),
        spec(),
    );
    let r = m.to_resource_ref();
    assert!(r.is_cluster_scoped());
    assert!(r.namespace.is_none());
    assert_eq!(r.name, "widgets.example.io");
}

#[test]
fn manifest_to_resource_ref_core_group() {
    let m: Manifest<DeploymentSpec> = Manifest::from_gvk(
        "",
        "v1",
        "Pod",
        ObjectMeta::namespaced("mypod", "default"),
        spec(),
    );
    let r = m.to_resource_ref();
    assert_eq!(r.group, "", "core group must propagate as empty string");
    assert_eq!(r.version, "v1");
    assert_eq!(r.kind, "Pod");
}

#[test]
fn name_and_namespace_accessors() {
    let m: Manifest<DeploymentSpec> = Manifest::new("apps/v1", "Deployment", meta(), spec());
    assert_eq!(m.name(), "nginx");
    assert_eq!(m.namespace(), "default");
}

#[test]
fn manifest_composes_with_label_selector_via_metadata() {
    let m: Manifest<DeploymentSpec> = Manifest::from_gvk(
        "apps",
        "v1",
        "Deployment",
        meta(), // has label app=nginx
        spec(),
    );

    let sel = LabelSelector::from_label("app", "nginx");
    assert!(sel.matches(&m.metadata.labels));

    let sel2 = LabelSelector::from_label("app", "redis");
    assert!(!sel2.matches(&m.metadata.labels));
}
