use magma::converge::dns::{DnsRecordReconciler, MockDnsClient, Record, RecordKey, RecordValue};
use magma::converge::github::{GithubRepoReconciler, MockGithubClient, RepoSettings};
use magma::converge::helm::{HelmReleaseReconciler, MockHelmClient, ReleaseSpec};
use magma::converge::inmemory::InMemoryKvReconciler;
use magma::converge::store::Shaped;
use magma::converge::{detect_drift, Reconciler};
use magma::json::Json;
use magma::ordmap::StrMap;

fn s(x: &str) -> Json {
    Json::string(x)
}

fn n(x: i64) -> Json {
    Json::integer(x)
}

fn obj(members: Vec<(&str, Json)>) -> Json {
    Json::object(members.into_iter().map(|(k, v)| (k.to_string(), v)).collect())
}

fn arr(xs: Vec<Json>) -> Json {
    Json::Array(xs)
}

fn kv(members: Vec<(&str, Json)>) -> StrMap<Json> {
    let mut m = StrMap::new();
    for (k, v) in members {
        m.insert(k.to_string(), v);
    }
    m
}

fn as_config<T: Shaped>(wanted: &StrMap<T>) -> Json {
    Json::object(wanted.entries.iter().map(|(k, v)| (k.clone(), v.to_json())).collect())
}

#[test]
fn law_empty_plan_apply_inmemory() {
    let mut r = InMemoryKvReconciler::new();
    let state = r.read_state().unwrap();
    let plan = r.compute_plan(&obj(vec![]), &state).unwrap();
    assert!(plan.is_noop(), "empty config → empty plan");
    r.apply(&plan).unwrap();
    let after = r.read_state().unwrap();
    assert_eq!(state, after, "noop apply should not mutate observed state");
}

#[test]
fn law_empty_plan_apply_github() {
    let mut r = GithubRepoReconciler::new(MockGithubClient::new());
    let state = r.read_state().unwrap();
    let plan = r.compute_plan(&obj(vec![]), &state).unwrap();
    assert!(plan.is_noop());
    r.apply(&plan).unwrap();
    let after = r.read_state().unwrap();
    assert_eq!(state, after);
}

#[test]
fn law_empty_plan_apply_dns() {
    let mut r = DnsRecordReconciler::new(MockDnsClient::new());
    let state = r.read_state().unwrap();
    let plan = r.compute_plan(&arr(vec![]), &state).unwrap();
    assert!(plan.is_noop());
    r.apply(&plan).unwrap();
    let after = r.read_state().unwrap();
    assert_eq!(state, after);
}

#[test]
fn law_empty_plan_apply_helm() {
    let mut r = HelmReleaseReconciler::new(MockHelmClient::new());
    let state = r.read_state().unwrap();
    let plan = r.compute_plan(&obj(vec![]), &state).unwrap();
    assert!(plan.is_noop());
    r.apply(&plan).unwrap();
    let after = r.read_state().unwrap();
    assert_eq!(state, after);
}

#[test]
fn law_read_state_idempotent_inmemory() {
    let r = InMemoryKvReconciler::with_state(kv(vec![("k", s("v"))]));
    let s1 = r.read_state().unwrap();
    let s2 = r.read_state().unwrap();
    assert_eq!(s1, s2);
}

#[test]
fn law_read_state_idempotent_github() {
    let mut initial = StrMap::new();
    initial.insert("rio".to_string(), RepoSettings {
        description: Some("x".into()),
        private: false,
        default_branch: "main".into(),
        topics: vec!["a".into(), "b".into()],
    });
    let r = GithubRepoReconciler::new(MockGithubClient::with_repos(&initial));
    let s1 = r.read_state().unwrap();
    let s2 = r.read_state().unwrap();
    assert_eq!(s1, s2);
}

#[test]
fn law_read_state_idempotent_dns() {
    let initial = vec![Record {
        key: RecordKey { zone: "ex.com".into(), name: "api".into(), rtype: "A".into() },
        value: RecordValue { value: "1.2.3.4".into(), ttl: 300, proxied: false },
    }];
    let r = DnsRecordReconciler::new(MockDnsClient::with_records(&initial));
    let s1 = r.read_state().unwrap();
    let s2 = r.read_state().unwrap();
    assert_eq!(s1, s2);
}

#[test]
fn law_read_state_idempotent_helm() {
    let mut initial = StrMap::new();
    initial.insert("nginx".to_string(), ReleaseSpec {
        chart: "ingress-nginx".into(),
        version: "4.7.0".into(),
        namespace: "default".into(),
        values: obj(vec![("replicas", n(2))]),
    });
    let r = HelmReleaseReconciler::new(MockHelmClient::with_releases(&initial));
    let s1 = r.read_state().unwrap();
    let s2 = r.read_state().unwrap();
    assert_eq!(s1, s2);
}

#[test]
fn law_apply_converges_helm() {
    let mut r = HelmReleaseReconciler::new(MockHelmClient::new());
    let mut desired = StrMap::new();
    desired.insert("nginx".to_string(), ReleaseSpec {
        chart: "ingress-nginx".into(),
        version: "4.7.0".into(),
        namespace: "default".into(),
        values: obj(vec![]),
    });
    let config = as_config(&desired);
    let state = r.read_state().unwrap();
    let plan = r.compute_plan(&config, &state).unwrap();
    r.apply(&plan).unwrap();
    let drift = detect_drift(&r, &config).unwrap();
    assert!(drift.is_noop());
}

#[test]
fn law_kinds_are_unique() {
    let kinds = vec![
        InMemoryKvReconciler::new().kind(),
        GithubRepoReconciler::new(MockGithubClient::new()).kind(),
        DnsRecordReconciler::new(MockDnsClient::new()).kind(),
        HelmReleaseReconciler::new(MockHelmClient::new()).kind(),
    ];
    let unique: std::collections::HashSet<_> = kinds.iter().collect();
    assert_eq!(unique.len(), kinds.len(), "reconciler kinds collide: {kinds:?}");
}
