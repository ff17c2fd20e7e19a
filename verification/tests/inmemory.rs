use magma::converge::inmemory::InMemoryKvReconciler;
use magma::converge::{detect_drift, Action, Reconciler};
use magma::json::Json;
use magma::ordmap::StrMap;

fn s(x: &str) -> Json {
    Json::string(x)
}

fn n(x: i64) -> Json {
    Json::integer(x)
}

fn obj(members: Vec<(&str, Json)>) -> Json {
    Json::object(members.into_iter().map(|(k, v)| (k.to_string(), v)).collect())
}

fn kv(members: Vec<(&str, Json)>) -> StrMap<Json> {
    let mut m = StrMap::new();
    for (k, v) in members {
        m.insert(k.to_string(), v);
    }
    m
}

#[test]
fn fresh_reconciler_has_empty_state() {
    let r = InMemoryKvReconciler::new();
    let state = r.read_state().unwrap();
    assert_eq!(state, obj(vec![]));
}

#[test]
fn create_plan_against_empty_state() {
    let r = InMemoryKvReconciler::new();
    let config = obj(vec![("a", n(1)), ("b", n(2))]);
    let state = r.read_state().unwrap();
    let plan = r.compute_plan(&config, &state).unwrap();
    assert_eq!(plan.change_count(), 2);
    for c in &plan.changes {
        assert_eq!(c.action, Action::Create);
    }
}

#[test]
fn apply_creates_resources_in_state() {
    let mut r = InMemoryKvReconciler::new();
    let config = obj(vec![("a", n(1))]);
    let state  = r.read_state().unwrap();
    let plan   = r.compute_plan(&config, &state).unwrap();
    let outcome = r.apply(&plan).unwrap();
    assert!(outcome.fully_succeeded());
    assert_eq!(outcome.applied.len(), 1);
    assert_eq!(r.snapshot().get("a"), Some(&n(1)));
}

#[test]
fn update_plan_emits_typed_diff() {
    let r = InMemoryKvReconciler::with_state(kv(vec![("k", n(1))]));
    let config = obj(vec![("k", n(2))]);
    let state = r.read_state().unwrap();
    let plan = r.compute_plan(&config, &state).unwrap();
    assert_eq!(plan.change_count(), 1);
    let c = &plan.changes[0];
    assert_eq!(c.action, Action::Update);
    assert_eq!(c.before, Some(n(1)));
    assert_eq!(c.after,  Some(n(2)));
}

#[test]
fn delete_plan_for_removed_keys() {
    let r = InMemoryKvReconciler::with_state(kv(vec![("doomed", s("bye"))]));
    let config = obj(vec![]);  // empty desired = remove everything
    let state = r.read_state().unwrap();
    let plan = r.compute_plan(&config, &state).unwrap();
    assert_eq!(plan.change_count(), 1);
    assert_eq!(plan.changes[0].action, Action::Delete);
}

#[test]
fn apply_converges_state_to_config() {
    let mut r = InMemoryKvReconciler::new();
    let config = obj(vec![("a", n(1)), ("b", n(2))]);
    let state = r.read_state().unwrap();
    let plan = r.compute_plan(&config, &state).unwrap();
    r.apply(&plan).unwrap();
    // Next plan against the same config should be a no-op.
    let new_state = r.read_state().unwrap();
    let new_plan = r.compute_plan(&config, &new_state).unwrap();
    assert!(new_plan.is_noop(), "expected noop, got {new_plan:?}");
}

#[test]
fn detect_drift_returns_compute_plan_against_current_state() {
    let r = InMemoryKvReconciler::with_state(kv(vec![("known", s("old"))]));
    let config = obj(vec![("known", s("new"))]);
    let drift = detect_drift(&r, &config).unwrap();
    assert_eq!(drift.change_count(), 1);
    assert_eq!(drift.changes[0].action, Action::Update);
}
