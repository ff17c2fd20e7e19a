use magma::converge::store::Shaped;
use magma::converge::vault::{MockVaultClient, PolicyBody, VaultPolicyReconciler};
use magma::converge::{detect_drift, Action, ChangeSeverity, Reconciler};
use magma::json::Json;
use magma::ordmap::StrMap;

fn s(x: &str) -> Json {
    Json::string(x)
}

fn n(x: i64) -> Json {
    Json::integer(x)
}

fn obj(members: Vec<(&str, Json)>) -> Json {
    Json::object(members.into_iter().map(|(k, v)| (k.to_string(), v)).collect())
}

fn arr(xs: Vec<Json>) -> Json {
    Json::Array(xs)
}

fn as_config<T: Shaped>(wanted: &StrMap<T>) -> Json {
    Json::object(wanted.entries.iter().map(|(k, v)| (k.clone(), v.to_json())).collect())
}

fn policy(version: &str, rules: Json) -> PolicyBody {
    PolicyBody {
        version: version.into(),
        rules,
    }
}

#[test]
fn empty_state() {
    let r = VaultPolicyReconciler::new(MockVaultClient::new());
    let state = r.read_state().unwrap();
    assert_eq!(state, obj(vec![]));
}

#[test]
fn create_plan_for_new_policy() {
    let r = VaultPolicyReconciler::new(MockVaultClient::new());
    let mut desired: StrMap<PolicyBody> = StrMap::new();
    desired.insert("admin".into(), policy("v1", obj(vec![("path", obj(vec![("secret/*", obj(vec![("capabilities", arr(vec![s("read"), s("list")]))]))]))])));
    let config = as_config(&desired);
    let plan = r.compute_plan(&config, &r.read_state().unwrap()).unwrap();
    assert_eq!(plan.change_count(), 1);
    assert_eq!(plan.changes[0].action, Action::Create);
    assert_eq!(plan.changes[0].severity, ChangeSeverity::Functional);
}

#[test]
fn delete_is_critical_severity() {
    let mut initial = StrMap::new();
    initial.insert("old".into(), policy("v1", obj(vec![])));
    let r = VaultPolicyReconciler::new(MockVaultClient::with_policies(&initial));
    let desired: StrMap<PolicyBody> = StrMap::new();
    let plan = r.compute_plan(
        &as_config(&desired),
        &r.read_state().unwrap(),
    ).unwrap();
    assert_eq!(plan.changes[0].action, Action::Delete);
    assert_eq!(plan.changes[0].severity, ChangeSeverity::Critical);
}

#[test]
fn update_plan_when_rules_differ() {
    let mut initial: StrMap<PolicyBody> = StrMap::new();
    initial.insert("ro".into(), policy("v1", obj(vec![("a", n(1))])));
    let r = VaultPolicyReconciler::new(MockVaultClient::with_policies(&initial));
    let mut desired: StrMap<PolicyBody> = StrMap::new();
    desired.insert("ro".into(), policy("v1", obj(vec![("a", n(2))])));
    let plan = r.compute_plan(
        &as_config(&desired),
        &r.read_state().unwrap(),
    ).unwrap();
    assert_eq!(plan.changes[0].action, Action::Update);
}

#[test]
fn vault_apply_converges() {
    let mut r = VaultPolicyReconciler::new(MockVaultClient::new());
    let mut desired: StrMap<PolicyBody> = StrMap::new();
    desired.insert("p".into(), policy("v1", obj(vec![])));
    let config = as_config(&desired);
    let plan = r.compute_plan(&config, &r.read_state().unwrap()).unwrap();
    r.apply(&plan).unwrap();
    let drift = detect_drift(&r, &config).unwrap();
    assert!(drift.is_noop());
}
