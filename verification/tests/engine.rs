use magma::converge::engine::{ConvergeEngine, EngineError};
use magma::converge::inmemory::InMemoryKvReconciler;
use magma::converge::vault::{MockVaultClient, VaultPolicyReconciler};
use magma::converge::{EitherReconciler, Plan};
use magma::json::Json;
use magma::ordmap::StrMap;
use std::collections::HashMap;

fn n(x: i64) -> Json {
    Json::integer(x)
}

fn obj(members: Vec<(&str, Json)>) -> Json {
    Json::object(members.into_iter().map(|(k, v)| (k.to_string(), v)).collect())
}

#[test]
fn engine_routes_to_registered_kind() {
    let mut engine = ConvergeEngine::new();
    engine.register(InMemoryKvReconciler::new());
    assert_eq!(engine.len(), 1);

    let config = obj(vec![("a", n(1))]);
    let state = engine.read_state("inmemory_kv").unwrap();
    let plan = engine.compute_plan("inmemory_kv", &config, &state).unwrap();
    assert_eq!(plan.change_count(), 1);
    let outcome = engine.apply("inmemory_kv", &plan).unwrap();
    assert!(outcome.fully_succeeded());
}

#[test]
fn unknown_kind_errors_loudly() {
    let engine: ConvergeEngine<InMemoryKvReconciler> = ConvergeEngine::new();
    let result = engine.read_state("nonexistent");
    match result {
        Err(EngineError::UnknownKind(k)) => assert_eq!(k, "nonexistent"),
        other => panic!("expected UnknownKind, got {other:?}"),
    }
}

#[test]
fn drift_sweep_runs_each_kind_in_isolation() {
    let mut engine = ConvergeEngine::new();
    engine.register(InMemoryKvReconciler::new());

    let mut configs = StrMap::new();
    configs.insert("inmemory_kv".to_string(), obj(vec![("a", n(1))]));
    configs.insert("ghost_kind".to_string(), obj(vec![]));

    let results = engine.drift_sweep(&configs);
    assert_eq!(results.len(), 2);
    // inmemory_kv should yield a 1-change plan; ghost_kind unknown.
    let by_kind: HashMap<&str, &Result<Plan, EngineError>> =
        results.iter().map(|(k, r)| (k.as_str(), r)).collect();
    assert!(by_kind["inmemory_kv"].is_ok());
    assert!(by_kind["ghost_kind"].is_err());
}

#[test]
fn engine_kinds_returns_sorted_labels() {
    let mut engine = ConvergeEngine::new();
    engine.register(InMemoryKvReconciler::new());
    // For now we only have inmemory_kv registered; verify sort.
    assert_eq!(engine.kinds(), vec!["inmemory_kv"]);
}

#[test]
fn empty_engine_is_consistent() {
    let engine: ConvergeEngine<InMemoryKvReconciler> = ConvergeEngine::new();
    assert_eq!(engine.len(), 0);
    assert!(engine.is_empty());
    assert_eq!(engine.kinds().len(), 0);
    // drift_sweep over an empty engine + empty configs is the
    // identity sweep — empty in, empty out.
    let results = engine.drift_sweep(&StrMap::new());
    assert_eq!(results.len(), 0);
}

#[test]
fn one_engine_routes_to_reconcilers_of_two_types() {
    let mut engine = ConvergeEngine::default();
    engine
        .register(EitherReconciler::First(InMemoryKvReconciler::new()))
        .register(EitherReconciler::Second(VaultPolicyReconciler::new(MockVaultClient::new())));
    assert_eq!(engine.kinds(), vec!["inmemory_kv", "vault_policy"]);

    let kv = Json::object(vec![("a".to_string(), Json::integer(1))]);
    let plan = engine.detect_drift("inmemory_kv", &kv).unwrap();
    assert_eq!(plan.kind, "inmemory_kv");
    assert!(engine.apply("inmemory_kv", &plan).unwrap().fully_succeeded());
    assert_eq!(engine.read_state("inmemory_kv").unwrap(), kv);

    let body = Json::object(vec![
        ("rules".to_string(), Json::string("deny")),
        ("version".to_string(), Json::string("1")),
    ]);
    let policies = Json::object(vec![("p".to_string(), body)]);
    let plan = engine.detect_drift("vault_policy", &policies).unwrap();
    assert_eq!(plan.kind, "vault_policy");
    assert!(engine.apply("vault_policy", &plan).unwrap().fully_succeeded());
    assert!(engine.detect_drift("vault_policy", &policies).unwrap().is_noop());
    assert_eq!(engine.read_state("inmemory_kv").unwrap(), kv);
    assert_eq!(engine.len(), 2);
}
