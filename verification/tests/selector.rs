use magma::converge::selector::{
    labels, LabelSelector, LabelSelectorOperator, LabelSelectorRequirement,
};
use magma::converge::validate::Validate;

#[test]
fn operator_ignores_values_only_for_exists_kinds() {
    assert!(LabelSelectorOperator::Exists.ignores_values());
    assert!(LabelSelectorOperator::DoesNotExist.ignores_values());
    assert!(!LabelSelectorOperator::In.ignores_values());
    assert!(!LabelSelectorOperator::NotIn.ignores_values());
}

#[test]
fn operator_names_match_k8s_wire_format() {
    assert_eq!(LabelSelectorOperator::In.name(), "In");
    assert_eq!(LabelSelectorOperator::NotIn.name(), "NotIn");
    assert_eq!(LabelSelectorOperator::Exists.name(), "Exists");
    assert_eq!(LabelSelectorOperator::DoesNotExist.name(), "DoesNotExist");
}

#[test]
fn requirement_constructors_set_operator_correctly() {
    assert_eq!(
        LabelSelectorRequirement::in_values("k", vec!["v".into()]).operator,
        LabelSelectorOperator::In
    );
    assert_eq!(
        LabelSelectorRequirement::not_in("k", vec!["v".into()]).operator,
        LabelSelectorOperator::NotIn
    );
    assert_eq!(
        LabelSelectorRequirement::key_exists("k").operator,
        LabelSelectorOperator::Exists
    );
    assert_eq!(
        LabelSelectorRequirement::does_not_exist("k").operator,
        LabelSelectorOperator::DoesNotExist
    );
}

#[test]
fn requirement_exists_does_not_carry_values() {
    let r = LabelSelectorRequirement::key_exists("k");
    assert!(r.values.is_empty());
    assert!(!r.has_invalid_values());
}

#[test]
fn requirement_invalid_when_exists_carries_values() {
    let r = LabelSelectorRequirement::new(
        "k",
        LabelSelectorOperator::Exists,
        vec!["bad".into()],
    );
    assert!(r.has_invalid_values());
}

#[test]
fn requirement_in_matches_value_present() {
    let r = LabelSelectorRequirement::in_values("env", vec!["prod".into(), "staging".into()]);
    assert!(r.matches(&labels(&[("env", "prod")])));
    assert!(r.matches(&labels(&[("env", "staging")])));
    assert!(!r.matches(&labels(&[("env", "dev")])));
    assert!(!r.matches(&labels(&[])));
}

#[test]
fn requirement_not_in_matches_value_absent_or_other() {
    let r = LabelSelectorRequirement::not_in("env", vec!["prod".into()]);
    assert!(r.matches(&labels(&[("env", "dev")])));
    assert!(r.matches(&labels(&[("env", "staging")])));
    assert!(r.matches(&labels(&[])), "absent label satisfies NotIn");
    assert!(!r.matches(&labels(&[("env", "prod")])));
}

#[test]
fn requirement_exists_matches_label_present() {
    let r = LabelSelectorRequirement::key_exists("tier");
    assert!(r.matches(&labels(&[("tier", "frontend")])));
    assert!(r.matches(&labels(&[("tier", "")])), "empty value still exists");
    assert!(!r.matches(&labels(&[("env", "prod")])));
}

#[test]
fn requirement_does_not_exist_matches_label_absent() {
    let r = LabelSelectorRequirement::does_not_exist("legacy");
    assert!(r.matches(&labels(&[])));
    assert!(r.matches(&labels(&[("env", "prod")])));
    assert!(!r.matches(&labels(&[("legacy", "true")])));
}

#[test]
fn requirement_in_with_empty_values_never_matches() {
    // K8s spec: In with empty values is vacuous (matches nothing).
    let r = LabelSelectorRequirement::new("k", LabelSelectorOperator::In, vec![]);
    assert!(!r.matches(&labels(&[("k", "v")])));
    assert!(!r.matches(&labels(&[])));
}

#[test]
fn empty_selector_matches_anything() {
    let s = LabelSelector::new();
    assert!(s.is_empty());
    assert!(s.matches(&labels(&[])));
    assert!(s.matches(&labels(&[("env", "prod"), ("tier", "frontend")])));
}

#[test]
fn match_labels_requires_all_keys_present_with_correct_values() {
    let s = LabelSelector::from_label("env", "prod")
        .with_label("tier", "frontend");
    assert!(s.matches(&labels(&[("env", "prod"), ("tier", "frontend")])));
    // Wrong value for env.
    assert!(!s.matches(&labels(&[("env", "dev"), ("tier", "frontend")])));
    // Missing tier.
    assert!(!s.matches(&labels(&[("env", "prod")])));
    // Empty.
    assert!(!s.matches(&labels(&[])));
}

#[test]
fn match_labels_ignores_extra_labels_in_target() {
    let s = LabelSelector::from_label("env", "prod");
    assert!(s.matches(&labels(&[
        ("env", "prod"),
        ("extra", "yes"),
        ("more", "stuff"),
    ])));
}

#[test]
fn match_expressions_evaluated_in_addition_to_match_labels() {
    let s = LabelSelector::new()
        .with_label("env", "prod")
        .with_expression(LabelSelectorRequirement::key_exists("tier"))
        .with_expression(LabelSelectorRequirement::not_in(
            "version",
            vec!["v0".into()],
        ));

    // env=prod ✓ + tier exists ✓ + version not in [v0] ✓
    assert!(s.matches(&labels(&[
        ("env", "prod"),
        ("tier", "frontend"),
        ("version", "v1"),
    ])));

    // env=prod ✓ + tier MISSING → fail
    assert!(!s.matches(&labels(&[("env", "prod"), ("version", "v1")])));

    // env=prod ✓ + tier ✓ + version=v0 → fail (NotIn rejects)
    assert!(!s.matches(&labels(&[
        ("env", "prod"),
        ("tier", "frontend"),
        ("version", "v0"),
    ])));

    // env=dev → fail (matchLabels mismatch)
    assert!(!s.matches(&labels(&[
        ("env", "dev"),
        ("tier", "frontend"),
        ("version", "v1"),
    ])));
}

#[test]
fn match_expressions_alone_select_correctly() {
    let s = LabelSelector::new()
        .with_expression(LabelSelectorRequirement::in_values(
            "env",
            vec!["prod".into(), "staging".into()],
        ));

    assert!(s.matches(&labels(&[("env", "prod")])));
    assert!(s.matches(&labels(&[("env", "staging")])));
    assert!(!s.matches(&labels(&[("env", "dev")])));
}

#[test]
fn selector_and_semantics_short_circuits_on_first_failure() {
    // First condition false → selector returns false without
    // evaluating later conditions. Tested indirectly via
    // a long chain.
    let s = LabelSelector::new()
        .with_label("a", "1")
        .with_label("b", "2")
        .with_label("c", "3")
        .with_label("d", "4");

    // Missing a → false (the other 3 don't need to evaluate).
    assert!(!s.matches(&labels(&[("b", "2"), ("c", "3"), ("d", "4")])));
}

#[test]
fn selector_has_invalid_requirements_detects_exists_with_values() {
    let s = LabelSelector::new().with_expression(LabelSelectorRequirement::new(
        "k",
        LabelSelectorOperator::Exists,
        vec!["bad".into()],
    ));
    assert!(s.has_invalid_requirements());

    let clean = LabelSelector::from_label("env", "prod")
        .with_expression(LabelSelectorRequirement::key_exists("tier"));
    assert!(!clean.has_invalid_requirements());
}

#[test]
fn labels_helper_builds_map() {
    let m = labels(&[("a", "1"), ("b", "2")]);
    assert_eq!(m.len(), 2);
    assert_eq!(m.get("a").map(|s| s.as_str()), Some("1"));
}

#[test]
fn matches_is_deterministic() {
    let s = LabelSelector::from_label("env", "prod")
        .with_expression(LabelSelectorRequirement::not_in(
            "version",
            vec!["v0".into()],
        ));

    let cases = [
        labels(&[]),
        labels(&[("env", "prod")]),
        labels(&[("env", "prod"), ("version", "v1")]),
        labels(&[("env", "prod"), ("version", "v0")]),
        labels(&[("env", "dev"), ("version", "v1")]),
    ];

    for c in &cases {
        let a = s.matches(c);
        let b = s.matches(c);
        assert_eq!(a, b, "non-deterministic match for labels {c:?}");
    }
}

#[test]
fn requirement_validates_by_its_values() {
    let bad = LabelSelectorRequirement::new(
        "k",
        LabelSelectorOperator::Exists,
        vec!["bad".into()],
    );
    assert!(!bad.is_valid());
    assert_eq!(bad.validate().len(), 1);
    assert_eq!(bad.validate()[0].path, "values");
    assert_eq!(bad.validate()[0].kind, "non_empty_values_for_exists_op");
    assert_eq!(bad.validate()[0].message, "Exists and DoesNotExist go without values");
    assert_eq!(bad.validate(), bad.validate());
    let good = LabelSelectorRequirement::key_exists("k");
    assert!(good.is_valid());
    assert!(good.validate().is_empty());
}

#[test]
fn requirement_not_in_with_empty_values_always_matches() {
    let r = LabelSelectorRequirement::new("k", LabelSelectorOperator::NotIn, vec![]);
    assert!(r.matches(&labels(&[("k", "v")])));
    assert!(r.matches(&labels(&[])));
}
