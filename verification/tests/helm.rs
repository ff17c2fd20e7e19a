use magma::converge::helm::{next_call, HelmReleaseReconciler, MockHelmClient, ReleaseSpec};
use magma::converge::store::{Call, Shaped, Step, StepRun};
use magma::converge::{change, detect_drift, Action, ChangeSeverity, Reconciler};
use magma::json::Json;
use magma::ordmap::StrMap;

fn n(x: i64) -> Json {
    Json::integer(x)
}

fn obj(members: Vec<(&str, Json)>) -> Json {
    Json::object(members.into_iter().map(|(k, v)| (k.to_string(), v)).collect())
}

fn as_config<T: Shaped>(wanted: &StrMap<T>) -> Json {
    Json::object(wanted.entries.iter().map(|(k, v)| (k.clone(), v.to_json())).collect())
}

fn rel(chart: &str, version: &str, values: Json) -> ReleaseSpec {
    ReleaseSpec {
        chart: chart.into(),
        version: version.into(),
        namespace: "default".into(),
        values,
    }
}

#[test]
fn empty_state_yields_no_releases() {
    let r = HelmReleaseReconciler::new(MockHelmClient::new());
    let state = r.read_state().unwrap();
    assert_eq!(state, obj(vec![]));
}

#[test]
fn install_new_release() {
    let mut r = HelmReleaseReconciler::new(MockHelmClient::new());
    let mut desired: StrMap<ReleaseSpec> = StrMap::new();
    desired.insert(
        "nginx".to_string(),
        rel("ingress-nginx", "4.7.0", obj(vec![("replicaCount", n(2))])),
    );
    let config = as_config(&desired);
    let state = r.read_state().unwrap();
    let plan = r.compute_plan(&config, &state).unwrap();
    assert_eq!(plan.change_count(), 1);
    assert_eq!(plan.changes[0].action, Action::Create);
    assert_eq!(plan.changes[0].severity, ChangeSeverity::Functional);

    let outcome = r.apply(&plan).unwrap();
    assert!(outcome.fully_succeeded());
    assert!(r.client().snapshot().contains_key("nginx"));
}

#[test]
fn version_bump_is_update_not_replace() {
    let mut initial = StrMap::new();
    initial.insert("nginx".into(), rel("ingress-nginx", "4.7.0", obj(vec![])));
    let r = HelmReleaseReconciler::new(MockHelmClient::with_releases(&initial));
    let mut desired: StrMap<ReleaseSpec> = StrMap::new();
    desired.insert("nginx".into(), rel("ingress-nginx", "4.8.0", obj(vec![])));
    let plan = r
        .compute_plan(
            &as_config(&desired),
            &r.read_state().unwrap(),
        )
        .unwrap();
    assert_eq!(plan.changes[0].action, Action::Update);
    assert_eq!(plan.changes[0].severity, ChangeSeverity::Functional);
}

#[test]
fn chart_swap_is_replace_critical_severity() {
    let mut initial = StrMap::new();
    initial.insert("traffic".into(), rel("ingress-nginx", "4.7.0", obj(vec![])));
    let r = HelmReleaseReconciler::new(MockHelmClient::with_releases(&initial));
    let mut desired: StrMap<ReleaseSpec> = StrMap::new();
    desired.insert("traffic".into(), rel("envoy-gateway", "1.0.0", obj(vec![])));
    let plan = r
        .compute_plan(
            &as_config(&desired),
            &r.read_state().unwrap(),
        )
        .unwrap();
    assert_eq!(plan.changes[0].action, Action::Replace);
    assert_eq!(plan.changes[0].severity, ChangeSeverity::Critical);
}

#[test]
fn values_diff_is_update() {
    let mut initial = StrMap::new();
    initial.insert(
        "nginx".into(),
        rel("ingress-nginx", "4.7.0", obj(vec![("replicaCount", n(2))])),
    );
    let r = HelmReleaseReconciler::new(MockHelmClient::with_releases(&initial));
    let mut desired: StrMap<ReleaseSpec> = StrMap::new();
    desired.insert(
        "nginx".into(),
        rel("ingress-nginx", "4.7.0", obj(vec![("replicaCount", n(5))])),
    );
    let plan = r
        .compute_plan(
            &as_config(&desired),
            &r.read_state().unwrap(),
        )
        .unwrap();
    assert_eq!(plan.changes[0].action, Action::Update);
}

#[test]
fn uninstall_is_critical_delete() {
    let mut initial = StrMap::new();
    initial.insert("old".into(), rel("legacy", "1.0", obj(vec![])));
    let r = HelmReleaseReconciler::new(MockHelmClient::with_releases(&initial));
    let desired: StrMap<ReleaseSpec> = StrMap::new();
    let plan = r
        .compute_plan(
            &as_config(&desired),
            &r.read_state().unwrap(),
        )
        .unwrap();
    assert_eq!(plan.changes[0].action, Action::Delete);
    assert_eq!(plan.changes[0].severity, ChangeSeverity::Critical);
}

#[test]
fn helm_apply_converges() {
    let mut r = HelmReleaseReconciler::new(MockHelmClient::new());
    let mut desired: StrMap<ReleaseSpec> = StrMap::new();
    desired.insert(
        "nginx".to_string(),
        rel("ingress-nginx", "4.7.0", obj(vec![])),
    );
    let config = as_config(&desired);
    let plan = r
        .compute_plan(&config, &r.read_state().unwrap())
        .unwrap();
    r.apply(&plan).unwrap();
    // Drift is now empty.
    let drift = detect_drift(&r, &config).unwrap();
    assert!(drift.is_noop());
}

fn replacement(after: Option<Json>) -> Step<ReleaseSpec> {
    let c = change("helm_release.r", Action::Replace, None, after);
    next_call(&c).unwrap()
}

#[test]
fn a_replacement_installs_only_after_it_uninstalled() {
    let spec = rel("c", "1", obj(vec![]));
    let run = StepRun::start(replacement(Some(spec.to_json())));
    assert!(matches!(run.next(), Some(Call::Delete(n)) if n == "r"));
    let run = run.advance(Ok(()));
    assert!(matches!(run.next(), Some(Call::Create(n, s)) if n == "r" && s.chart == "c"));
    let run = run.advance(Ok(()));
    assert!(run.next().is_none());
    assert_eq!(run.verdict(), Ok(()));
}

#[test]
fn the_first_call_that_fails_ends_a_replacement() {
    let spec = rel("c", "1", obj(vec![]));
    let run = StepRun::start(replacement(Some(spec.to_json()))).advance(Err("no".into()));
    assert!(run.next().is_none());
    let run = run.advance(Ok(()));
    assert_eq!(run.verdict(), Err("no".to_string()));

    let run = StepRun::start(replacement(Some(spec.to_json())))
        .advance(Ok(()))
        .advance(Err("late".into()));
    assert!(run.next().is_none());
    assert_eq!(run.verdict(), Err("late".to_string()));
}

#[test]
fn a_replacement_without_a_release_still_uninstalls() {
    let run = StepRun::start(replacement(None));
    assert!(matches!(run.next(), Some(Call::Delete(_))));
    let run = run.advance(Ok(()));
    assert!(run.next().is_none());
    assert_eq!(run.verdict(), Err("replace without `after`".to_string()));
}
