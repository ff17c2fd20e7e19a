use magma::converge::{change, change_with_severity, Action, Change, ChangeSeverity, Plan};
use magma::drift::{
    classify, classify_at, DriftDecision, DriftDeduplicator, DriftEvent, DriftPolicy, PolicyRule,
};
use magma::json::Json;
use magma::time::{Delta, Timestamp};

fn s(x: &str) -> Json {
    Json::string(x)
}

fn n(x: i64) -> Json {
    Json::integer(x)
}

fn obj(members: Vec<(&str, Json)>) -> Json {
    Json::object(members.into_iter().map(|(k, v)| (k.to_string(), v)).collect())
}

fn mk_plan(changes: Vec<Change>) -> Plan {
    Plan::new("inmemory_kv", changes)
}

#[test]
fn classify_empty_plan_yields_no_events() {
    let plan = mk_plan(vec![]);
    let report = classify(&plan, &DriftPolicy::conservative_default());
    assert!(report.events.is_empty());
    assert_eq!(report.summary.total_changes, 0);
}

#[test]
fn noop_changes_are_ignored() {
    let plan = mk_plan(vec![change("kv.x", Action::NoOp, None, None)]);
    let report = classify(&plan, &DriftPolicy::conservative_default());
    assert!(report.events.is_empty());
}

#[test]
fn conservative_default_routes_by_severity() {
    let plan = mk_plan(vec![
        change_with_severity("kv.cosmetic", Action::Update,
            ChangeSeverity::Cosmetic, Some(n(1)), Some(n(2))),
        change_with_severity("kv.functional", Action::Update,
            ChangeSeverity::Functional, Some(s("a")), Some(s("b"))),
        change_with_severity("kv.critical", Action::Delete,
            ChangeSeverity::Critical, Some(obj(vec![])), None),
    ]);
    let report = classify(&plan, &DriftPolicy::conservative_default());
    assert_eq!(report.events.len(), 3);
    assert_eq!(report.summary.auto_corrected, 1);
    assert_eq!(report.summary.auto_corrected_with_alert, 1);
    assert_eq!(report.summary.awaiting_approval, 1);
}

#[test]
fn first_matching_rule_wins() {
    let policy = DriftPolicy {
        rules: vec![
            PolicyRule {
                name: "refuse-anything-prod".into(),
                severity: None, action: None,
                address_prefix: Some("aws_iam_role.prod".into()),
                decision: DriftDecision::Refuse,
            },
            PolicyRule {
                name: "auto-fix-everything-else".into(),
                severity: None, action: None, address_prefix: None,
                decision: DriftDecision::AutoCorrect,
            },
        ],
        fallback: DriftDecision::RequireApproval,
    };
    let plan = mk_plan(vec![
        change("aws_iam_role.prod-cluster", Action::Update, Some(n(1)), Some(n(2))),
        change("aws_iam_role.dev-cluster",  Action::Update, Some(n(1)), Some(n(2))),
    ]);
    let report = classify(&plan, &policy);
    let prod = report.events.iter().find(|e| e.address.contains("prod")).unwrap();
    let dev  = report.events.iter().find(|e| e.address.contains("dev")).unwrap();
    assert_eq!(prod.decision, DriftDecision::Refuse);
    assert_eq!(dev.decision, DriftDecision::AutoCorrect);
}

#[test]
fn fallback_used_when_no_rule_matches() {
    let policy = DriftPolicy {
        rules: vec![],
        fallback: DriftDecision::AutoCorrect,
    };
    let plan = mk_plan(vec![change("x.y", Action::Update, Some(n(1)), Some(n(2)))]);
    let report = classify(&plan, &policy);
    assert_eq!(report.events[0].decision, DriftDecision::AutoCorrect);
    assert_eq!(report.events[0].matched_policy, None);
}

#[test]
fn fingerprint_is_stable_across_classifications() {
    let c = change("kv.a", Action::Update, Some(n(1)), Some(n(2)));
    let f1 = DriftEvent::fingerprint_for("inmemory_kv", &c);
    let f2 = DriftEvent::fingerprint_for("inmemory_kv", &c);
    assert_eq!(f1, f2);
    // 64 hex chars (BLAKE3 32 bytes).
    assert_eq!(f1.len(), 64);
}

#[test]
fn fingerprint_changes_with_payload() {
    let a = change("kv.a", Action::Update, Some(n(1)), Some(n(2)));
    let b = change("kv.a", Action::Update, Some(n(1)), Some(n(99)));
    assert_ne!(
        DriftEvent::fingerprint_for("k", &a),
        DriftEvent::fingerprint_for("k", &b),
    );
}

#[test]
fn deduplicator_suppresses_repeats_within_window() {
    let mut d = DriftDeduplicator::new();
    let fp = "abcd";
    let window = Delta::seconds(60);
    assert!(d.observe(fp, window),  "first observation should pass");
    assert!(!d.observe(fp, window), "immediate re-observation should be suppressed");
}

#[test]
fn deduplicator_lets_new_fingerprints_through() {
    let mut d = DriftDeduplicator::new();
    let window = Delta::seconds(60);
    assert!(d.observe("fp-a", window));
    assert!(d.observe("fp-b", window));
    assert_eq!(d.len(), 2);
}

#[test]
fn fingerprint_is_the_digest_of_the_change() {
    let c = change("kv.a", Action::Update, Some(n(1)), Some(n(2)));
    let text = r#"{"action":"update","address":"kv.a","after":2,"before":1,"kind":"inmemory_kv"}"#;
    let expected = blake3::hash(text.as_bytes()).to_hex().to_string();
    assert_eq!(DriftEvent::fingerprint_for("inmemory_kv", &c), expected);
}

#[test]
fn events_carry_the_time_and_the_rule() {
    let plan = mk_plan(vec![
        change("kv.a", Action::Create, None, Some(n(1))),
        change("kv.b", Action::NoOp, None, None),
        change("kv.c", Action::Delete, Some(n(1)), None),
    ]);
    let at = Timestamp::at(1234);
    let r = classify_at(&plan, &DriftPolicy::conservative_default(), at);
    assert_eq!(r.kind, "inmemory_kv");
    assert_eq!(r.plan_id, plan.id);
    let addresses: Vec<&str> = r.events.iter().map(|e| e.address.as_str()).collect();
    assert_eq!(addresses, vec!["kv.a", "kv.c"]);
    assert_eq!(r.events[0].matched_policy, Some("alert-on-functional".to_string()));
    assert_eq!(r.events[1].matched_policy, Some("approval-required-for-critical".to_string()));
    assert!(r.events.iter().all(|e| e.observed_at == at));
    assert_eq!(r.summary.total_changes, 2);
    assert_eq!(r.summary.refused, 0);
}

#[test]
fn deduplicator_lets_a_repeat_through_once_the_window_has_passed() {
    let mut d = DriftDeduplicator::new();
    let window = Delta::seconds(60);
    assert!(d.observe_at("fp", window, Timestamp::at(100)));
    assert!(!d.observe_at("fp", window, Timestamp::at(159)));
    assert!(d.observe_at("fp", window, Timestamp::at(160)));
    assert!(!d.observe_at("fp", window, Timestamp::at(161)));
    assert!(d.known("fp"));
    assert!(!d.known("other"));
    assert!(!d.is_empty());
}
