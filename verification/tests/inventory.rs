use magma::converge::inventory::{Inventory, ResourceRef};

fn deployment(ns: &str, name: &str) -> ResourceRef {
    ResourceRef::namespaced("apps", "v1", "Deployment", ns, name)
}

fn crd(name: &str) -> ResourceRef {
    ResourceRef::cluster_scoped("apiextensions.k8s.io", "v1", "CustomResourceDefinition", name)
}

fn pod(ns: &str, name: &str) -> ResourceRef {
    ResourceRef::namespaced("", "v1", "Pod", ns, name)
}

#[test]
fn namespaced_constructor_carries_namespace() {
    let r = deployment("default", "nginx");
    assert_eq!(r.namespace.as_deref(), Some("default"));
    assert!(!r.is_cluster_scoped());
}

#[test]
fn cluster_scoped_constructor_carries_no_namespace() {
    let r = crd("widgets.example.com");
    assert!(r.namespace.is_none());
    assert!(r.is_cluster_scoped());
}

#[test]
fn api_kind_with_group() {
    let r = deployment("default", "nginx");
    assert_eq!(r.api_kind(), "apps/v1/Deployment");
}

#[test]
fn api_kind_without_group_uses_core_form() {
    let r = pod("default", "mypod");
    assert_eq!(r.api_kind(), "v1/Pod");
}

#[test]
fn display_uses_cluster_marker_for_cluster_scoped() {
    let r = crd("widgets.example.com");
    let s = r.text();
    assert!(s.contains("_cluster"), "got {s:?}");
}

#[test]
fn display_uses_namespace_for_namespaced() {
    let r = deployment("kube-system", "coredns");
    let s = r.text();
    assert!(s.contains("kube-system"));
}

#[test]
fn resource_ref_orders_canonically() {
    // BTreeSet orders by field lex order: group, version, kind, namespace, name.
    let refs = vec![
        deployment("z", "a"),
        deployment("a", "b"),
        deployment("a", "a"),
        crd("widgets"),
        pod("default", "x"),
    ];
    let inv = Inventory::from_iter(&refs);
    let sorted: Vec<_> = inv.iter();
    // Manually compute the expected canonical order via sort.
    let mut expected = vec![
        deployment("z", "a"),
        deployment("a", "b"),
        deployment("a", "a"),
        crd("widgets"),
        pod("default", "x"),
    ];
    expected.sort();
    assert_eq!(sorted, expected);
}

#[test]
fn empty_inventory() {
    let inv = Inventory::new();
    assert!(inv.is_empty());
    assert_eq!(inv.len(), 0);
}

#[test]
fn insert_deduplicates() {
    let mut inv = Inventory::new();
    assert!(inv.insert(deployment("default", "nginx")));
    assert!(!inv.insert(deployment("default", "nginx")), "duplicate insert returns false");
    assert_eq!(inv.len(), 1);
}

#[test]
fn from_iter_deduplicates() {
    let inv = Inventory::from_iter(&vec![
        deployment("default", "a"),
        deployment("default", "a"), // dup
        deployment("default", "b"),
    ]);
    assert_eq!(inv.len(), 2);
}

#[test]
fn contains_works() {
    let inv = Inventory::from_iter(&vec![deployment("default", "a")]);
    assert!(inv.contains(&deployment("default", "a")));
    assert!(!inv.contains(&deployment("default", "b")));
}

#[test]
fn diff_to_identical_is_empty() {
    let a = Inventory::from_iter(&vec![deployment("default", "a"), crd("widgets")]);
    let b = Inventory::from_iter(&vec![deployment("default", "a"), crd("widgets")]);

    let diff = a.diff_to(&b);
    assert!(diff.is_empty());
    assert_eq!(diff.change_count(), 0);
}

#[test]
fn diff_to_addition_only() {
    let prev = Inventory::from_iter(&vec![deployment("default", "a")]);
    let curr = Inventory::from_iter(&vec![deployment("default", "a"), deployment("default", "b")]);

    let diff = prev.diff_to(&curr);
    assert_eq!(diff.added, vec![deployment("default", "b")]);
    assert!(diff.removed.is_empty());
}

#[test]
fn diff_to_removal_only() {
    let prev = Inventory::from_iter(&vec![deployment("default", "a"), deployment("default", "b")]);
    let curr = Inventory::from_iter(&vec![deployment("default", "a")]);

    let diff = prev.diff_to(&curr);
    assert!(diff.added.is_empty());
    assert_eq!(diff.removed, vec![deployment("default", "b")]);
}

#[test]
fn diff_to_both_added_and_removed() {
    let prev = Inventory::from_iter(&vec![
        deployment("default", "a"),
        deployment("default", "b"),
    ]);
    let curr = Inventory::from_iter(&vec![
        deployment("default", "a"),
        deployment("default", "c"),
    ]);

    let diff = prev.diff_to(&curr);
    assert_eq!(diff.added, vec![deployment("default", "c")]);
    assert_eq!(diff.removed, vec![deployment("default", "b")]);
    assert_eq!(diff.change_count(), 2);
}

#[test]
fn diff_to_full_replacement() {
    let prev = Inventory::from_iter(&vec![deployment("default", "old")]);
    let curr = Inventory::from_iter(&vec![deployment("default", "new"), crd("widgets")]);

    let diff = prev.diff_to(&curr);
    assert_eq!(diff.added.len(), 2);
    assert_eq!(diff.removed.len(), 1);
}

#[test]
fn diff_is_asymmetric() {
    // a.diff_to(b).added == b.diff_to(a).removed and vice versa
    let a = Inventory::from_iter(&vec![deployment("ns", "x")]);
    let b = Inventory::from_iter(&vec![deployment("ns", "y")]);

    let a_to_b = a.diff_to(&b);
    let b_to_a = b.diff_to(&a);

    assert_eq!(a_to_b.added, b_to_a.removed);
    assert_eq!(a_to_b.removed, b_to_a.added);
}

#[test]
fn diff_is_deterministic_across_construction_order() {
    let prev_v1 = Inventory::from_iter(&vec![deployment("ns", "z"), deployment("ns", "a")]);
    let prev_v2 = Inventory::from_iter(&vec![deployment("ns", "a"), deployment("ns", "z")]);
    let curr = Inventory::from_iter(&vec![deployment("ns", "a")]);

    let diff1 = prev_v1.diff_to(&curr);
    let diff2 = prev_v2.diff_to(&curr);
    assert_eq!(diff1, diff2, "diff must be deterministic across insert order");
}
