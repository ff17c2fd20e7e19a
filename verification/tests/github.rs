use magma::converge::github::{GithubRepoReconciler, MockGithubClient, RepoSettings};
use magma::converge::store::Shaped;
use magma::converge::{Action, Reconciler};
use magma::json::Json;
use magma::ordmap::StrMap;

fn obj(members: Vec<(&str, Json)>) -> Json {
    Json::object(members.into_iter().map(|(k, v)| (k.to_string(), v)).collect())
}

fn as_config<T: Shaped>(wanted: &StrMap<T>) -> Json {
    Json::object(wanted.entries.iter().map(|(k, v)| (k.clone(), v.to_json())).collect())
}

fn repo(desc: &str) -> RepoSettings {
    RepoSettings {
        description: Some(desc.into()),
        private: false,
        default_branch: "main".into(),
        topics: vec![],
    }
}

#[test]
fn empty_github_state() {
    let r = GithubRepoReconciler::new(MockGithubClient::new());
    let state = r.read_state().unwrap();
    assert_eq!(state, obj(vec![]));
}

#[test]
fn create_plan_for_new_repo() {
    let r = GithubRepoReconciler::new(MockGithubClient::new());
    let mut desired = StrMap::new();
    desired.insert("rio".to_string(), repo("Rio cluster"));
    let config = as_config(&desired);
    let state = r.read_state().unwrap();
    let plan = r.compute_plan(&config, &state).unwrap();
    assert_eq!(plan.change_count(), 1);
    assert_eq!(plan.changes[0].action, Action::Create);
    assert_eq!(plan.changes[0].address, "github_repo.rio");
}

#[test]
fn apply_creates_repo_in_mock() {
    let mut r = GithubRepoReconciler::new(MockGithubClient::new());
    let mut desired = StrMap::new();
    desired.insert("rio".to_string(), repo("Rio"));
    let config = as_config(&desired);
    let state  = r.read_state().unwrap();
    let plan   = r.compute_plan(&config, &state).unwrap();
    let outcome = r.apply(&plan).unwrap();
    assert!(outcome.fully_succeeded());
    assert_eq!(r.client().snapshot().get("rio").unwrap().description, Some("Rio".into()));
}

#[test]
fn update_when_description_changes() {
    let mut initial = StrMap::new();
    initial.insert("rio".to_string(), repo("old"));
    let r = GithubRepoReconciler::new(MockGithubClient::with_repos(&initial));
    let mut desired = StrMap::new();
    desired.insert("rio".to_string(), repo("new"));
    let config = as_config(&desired);
    let state = r.read_state().unwrap();
    let plan = r.compute_plan(&config, &state).unwrap();
    assert_eq!(plan.changes[0].action, Action::Update);
}

#[test]
fn topic_order_does_not_trigger_drift() {
    // Server returns topics ["a","b"]; config has ["b","a"]. Both
    // canonicalize identically; plan should be a no-op.
    let mut initial = StrMap::new();
    let mut s = repo("x");
    s.topics = vec!["a".into(), "b".into()];
    initial.insert("rio".to_string(), s.clone());
    let r = GithubRepoReconciler::new(MockGithubClient::with_repos(&initial));

    let mut desired = StrMap::new();
    let mut t = s.clone();
    t.topics = vec!["b".into(), "a".into()]; // wrong order
    desired.insert("rio".to_string(), t);
    let config = as_config(&desired);
    let state = r.read_state().unwrap();
    let plan = r.compute_plan(&config, &state).unwrap();
    assert!(plan.is_noop(), "topic order shouldn't drift, plan: {plan:?}");
}

#[test]
fn apply_failure_surfaces_as_failed_change() {
    let mut r = GithubRepoReconciler::new(MockGithubClient::new());
    r.client_mut().fail_next("upstream 503");
    let mut desired = StrMap::new();
    desired.insert("rio".to_string(), repo("x"));
    let config = as_config(&desired);
    let state = r.read_state().unwrap();
    let plan = r.compute_plan(&config, &state).unwrap();
    let outcome = r.apply(&plan).unwrap();
    assert!(!outcome.fully_succeeded());
    assert_eq!(outcome.failed.len(), 1);
    assert!(outcome.failed[0].error.contains("upstream 503"));
}
