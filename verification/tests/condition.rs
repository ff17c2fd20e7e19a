use magma::converge::condition::{
    condition_reason_message, Condition, ConditionSet, ConditionStatus, READY, RECONCILING,
};
use magma::converge::health::ReadyState;
use magma::time::Timestamp;

fn t(secs: i64) -> Timestamp {
    Timestamp::at(secs)
}

fn ready_true() -> Condition {
    Condition::new(
        READY,
        ConditionStatus::True,
        "ReconciliationSucceeded",
        "Applied revision abc123",
        t(1000),
    )
}

fn ready_false() -> Condition {
    Condition::new(
        READY,
        ConditionStatus::False,
        "HelmInstallFailed",
        "Chart not found",
        t(1000),
    )
}

fn reconciling_true() -> Condition {
    Condition::new(
        RECONCILING,
        ConditionStatus::True,
        "Progressing",
        "Applying revision abc123",
        t(1500),
    )
}

#[test]
fn status_predicates() {
    assert!(ConditionStatus::True.is_true());
    assert!(!ConditionStatus::True.is_false());

    assert!(ConditionStatus::False.is_false());
    assert!(!ConditionStatus::False.is_true());

    assert!(ConditionStatus::Unknown.is_unknown());
    assert!(!ConditionStatus::Unknown.is_true());
}

#[test]
fn status_names_match_k8s_wire_format() {
    assert_eq!(ConditionStatus::True.name(), "True");
    assert_eq!(ConditionStatus::False.name(), "False");
    assert_eq!(ConditionStatus::Unknown.name(), "Unknown");
}

#[test]
fn empty_set() {
    let s = ConditionSet::new();
    assert!(s.is_empty());
    assert_eq!(s.len(), 0);
    assert!(s.get(READY).is_none());
    assert!(!s.is_true(READY));
}

#[test]
fn set_inserts_and_overwrites() {
    let mut s = ConditionSet::new();
    s.set(ready_true());
    assert_eq!(s.len(), 1);
    assert!(s.is_true(READY));

    // Overwrite same type.
    s.set(ready_false());
    assert_eq!(s.len(), 1);
    assert!(s.is_false(READY));
    assert!(!s.is_true(READY));
}

#[test]
fn iter_in_canonical_type_order() {
    let mut s = ConditionSet::new();
    s.set(reconciling_true()); // type=Reconciling
    s.set(ready_true());        // type=Ready
    // Sorted by type: "Ready" < "Reconciling" alphabetically.
    let listed = s.iter();
    let types: Vec<&str> = listed.iter().map(|c| c.type_.as_str()).collect();
    assert_eq!(types, vec![READY, RECONCILING]);
}

#[test]
fn remove_returns_removed() {
    let mut s = ConditionSet::new();
    s.set(ready_true());
    let removed = s.remove(READY).unwrap();
    assert!(removed.status.is_true());
    assert!(s.is_empty());
    assert!(s.remove(READY).is_none());
}

#[test]
fn touch_inserts_when_absent() {
    let mut s = ConditionSet::new();
    s.touch(READY, ConditionStatus::True, "Ok", "all good", t(1000));
    let c = s.get(READY).unwrap();
    assert!(c.status.is_true());
    assert_eq!(c.last_transition_time, t(1000));
}

#[test]
fn touch_preserves_transition_time_on_unchanged_status() {
    let mut s = ConditionSet::new();
    s.touch(READY, ConditionStatus::True, "Ok", "msg1", t(1000));
    s.touch(READY, ConditionStatus::True, "Ok2", "msg2", t(2000));

    let c = s.get(READY).unwrap();
    // Status didn't change True→True, so lastTransitionTime stays at 1000.
    assert_eq!(c.last_transition_time, t(1000));
    // Reason + message DO update.
    assert_eq!(c.reason, "Ok2");
    assert_eq!(c.message, "msg2");
}

#[test]
fn touch_updates_transition_time_on_status_change() {
    let mut s = ConditionSet::new();
    s.touch(READY, ConditionStatus::True, "Ok", "ok", t(1000));
    s.touch(READY, ConditionStatus::False, "Bad", "broke", t(2000));

    let c = s.get(READY).unwrap();
    assert!(c.status.is_false());
    // Status flipped True→False: lastTransitionTime updates to 2000.
    assert_eq!(c.last_transition_time, t(2000));
}

#[test]
fn touch_observed_sets_observed_generation() {
    let mut s = ConditionSet::new();
    s.touch_observed(READY, ConditionStatus::True, "Ok", "ok", t(1000), 5);
    let c = s.get(READY).unwrap();
    assert_eq!(c.observed_generation, Some(5));
}

#[test]
fn set_set_set_preserves_canonical_order() {
    // Pushing conditions in arbitrary insert order must yield
    // canonical (sorted-by-type) iteration.
    let mut s = ConditionSet::new();
    s.set(Condition::new("Z", ConditionStatus::True, "", "", t(0)));
    s.set(Condition::new("A", ConditionStatus::True, "", "", t(0)));
    s.set(Condition::new("M", ConditionStatus::True, "", "", t(0)));
    let listed = s.iter();
    let types: Vec<&str> = listed.iter().map(|c| c.type_.as_str()).collect();
    assert_eq!(types, vec!["A", "M", "Z"]);
}

#[test]
fn overall_ready_empty_is_unknown() {
    let s = ConditionSet::new();
    assert!(s.overall_ready().is_unknown());
}

#[test]
fn overall_ready_ready_true_is_ready() {
    let mut s = ConditionSet::new();
    s.set(ready_true());
    assert!(s.overall_ready().is_ready());
}

#[test]
fn overall_ready_ready_false_is_failed() {
    let mut s = ConditionSet::new();
    s.set(ready_false());
    match s.overall_ready() {
        ReadyState::Failed { reason } => {
            assert!(reason.contains("HelmInstallFailed"));
            assert!(reason.contains("Chart not found"));
        }
        other => panic!("expected Failed, got {other:?}"),
    }
}

#[test]
fn overall_ready_reconciling_true_beats_ready_unknown() {
    // Reconciling=True takes precedence — the reconciler is in
    // motion, not failed.
    let mut s = ConditionSet::new();
    s.set(Condition::new(
        READY,
        ConditionStatus::Unknown,
        "",
        "no status yet",
        t(0),
    ));
    s.set(reconciling_true());
    assert!(s.overall_ready().is_in_progress());
}

#[test]
fn overall_ready_reconciling_true_beats_ready_false() {
    // Even when Ready=False, Reconciling=True takes precedence —
    // a re-run is in flight and may correct the failure.
    let mut s = ConditionSet::new();
    s.set(ready_false());
    s.set(reconciling_true());
    match s.overall_ready() {
        ReadyState::InProgress { .. } => {}
        other => panic!("expected InProgress, got {other:?}"),
    }
}

#[test]
fn overall_ready_ready_unknown_alone_is_unknown() {
    let mut s = ConditionSet::new();
    s.set(Condition::new(
        READY,
        ConditionStatus::Unknown,
        "",
        "",
        t(0),
    ));
    assert!(s.overall_ready().is_unknown());
}

#[test]
fn reason_message_formats() {
    // both populated → "reason: message"
    let c = Condition::new("X", ConditionStatus::True, "Ok", "all good", t(0));
    assert_eq!(condition_reason_message(&c), "Ok: all good");

    // message empty → reason only
    let c = Condition::new("X", ConditionStatus::True, "Ok", "", t(0));
    assert_eq!(condition_reason_message(&c), "Ok");

    // reason empty → message only
    let c = Condition::new("X", ConditionStatus::True, "", "msg", t(0));
    assert_eq!(condition_reason_message(&c), "msg");
}

#[test]
fn binary_search_works_after_arbitrary_inserts() {
    let mut s = ConditionSet::new();
    for name in ["Mango", "Apple", "Zebra", "Banana", "Kiwi"] {
        s.set(Condition::new(name, ConditionStatus::True, "", "", t(0)));
    }
    // get() relies on binary search; verify it works.
    assert!(s.get("Apple").is_some());
    assert!(s.get("Mango").is_some());
    assert!(s.get("Zebra").is_some());
    assert!(s.get("Nope").is_none());
}

#[test]
fn sets_are_compared_and_copied() {
    let mut a = ConditionSet::default();
    assert_eq!(a, ConditionSet::new());
    a.set(Condition::new("Ready", ConditionStatus::True, "r", "m", Timestamp::at(1)));
    let b = a.clone();
    assert_eq!(a, b);
    assert_ne!(b, ConditionSet::new());
}
