use magma::config::resolve::{resolve_config, resolve_string};
use magma::converge::diff::diff;
use magma::converge::dns::{
    parse_address, plan as plan_records, DnsRecordReconciler, MockDnsClient, Record, RecordKey, RecordValue,
};
use magma::converge::engine::ConvergeEngine;
use magma::converge::github::{GithubRepoReconciler, MockGithubClient, RepoSettings};
use magma::converge::inmemory::InMemoryKvReconciler;
use magma::converge::policy::{
    resolve, CascadePolicy, FailureEscalation, ReactivePolicy, VerifiedBlockedPolicy,
};
use magma::converge::selector::{labels, LabelSelectorOperator, LabelSelectorRequirement};
use magma::converge::store::Shaped;
use magma::converge::terraform::{
    kind, magma_action_to_universal, read_config, rebuild_changes, reshape_outcome, universal_plan,
};
use magma::converge::{change, detect_drift, Action, Plan, Reconciler};
use magma::cty::json::{from_json, to_json};
use magma::cty::types::CtyType;
use magma::flow::{topological_order, FlowEdge, FlowError, FlowFile, FlowWorkspace};
use magma::json::Json;
use magma::ordmap::StrMap;
use magma::time::Timestamp;
use magma::types::{ResourceAction, ResourceAddress, ResourceChange, ResourceKind};

fn s(x: &str) -> Json {
    Json::string(x)
}

fn n(x: i64) -> Json {
    Json::integer(x)
}

fn obj(members: Vec<(&str, Json)>) -> Json {
    Json::object(members.into_iter().map(|(k, v)| (k.to_string(), v)).collect())
}

fn map(members: Vec<(&str, Json)>) -> StrMap<Json> {
    let mut m = StrMap::new();
    for (k, v) in members {
        m.insert(k.to_string(), v);
    }
    m
}

fn record(name: &str, value: &str) -> Record {
    Record {
        key: RecordKey {
            zone: "ex.com".into(),
            name: name.into(),
            rtype: "A".into(),
        },
        value: RecordValue {
            value: value.into(),
            ttl: 300,
            proxied: false,
        },
    }
}

#[test]
fn plans_do_not_depend_on_the_time() {
    let a = Plan::made_at("k", vec![change("x", Action::Create, None, Some(n(1)))], Timestamp::at(1));
    let b = Plan::made_at("k", vec![change("x", Action::Create, None, Some(n(1)))], Timestamp::at(2));
    assert_eq!(a.id, b.id);
    let c = Plan::made_at("k", vec![change("x", Action::Create, None, Some(n(2)))], Timestamp::at(1));
    assert_ne!(a.id, c.id);
}

#[test]
fn plans_are_the_same_for_the_same_input() {
    let r = InMemoryKvReconciler::new();
    let (config, state) = (obj(vec![("a", n(1))]), obj(vec![("b", n(2))]));
    let p = r.compute_plan(&config, &state).unwrap();
    let q = r.compute_plan(&config, &state).unwrap();
    assert_eq!(p.id, q.id);
    assert_eq!(p.changes.len(), 2);
    assert_eq!(q.changes.len(), 2);
}

#[test]
fn differences_are_in_order() {
    let have = map(vec![("a", n(1)), ("b", n(2)), ("c", n(3))]);
    let want = map(vec![("b", n(2)), ("c", n(4)), ("d", n(5))]);
    let cs = diff("kv.", None, &have, &want);
    let listed: Vec<(&str, Action)> = cs.iter().map(|c| (c.address.as_str(), c.action)).collect();
    assert_eq!(listed.len(), 3);
    assert!(listed.contains(&("kv.a", Action::Delete)));
    assert!(listed.contains(&("kv.c", Action::Update)));
    assert!(listed.contains(&("kv.d", Action::Create)));
    assert!(diff("kv.", None, &have, &have).is_empty());
}

#[test]
fn github_converges() {
    let mut r = GithubRepoReconciler::new(MockGithubClient::new());
    let repo = RepoSettings {
        description: None,
        private: true,
        default_branch: "main".into(),
        topics: vec!["b".into(), "a".into(), "b".into()],
    };
    let config = obj(vec![("rio", repo.to_json()), ("sol", repo.to_json())]);
    let plan = detect_drift(&r, &config).unwrap();
    assert_eq!(plan.change_count(), 2);
    assert!(r.apply(&plan).unwrap().fully_succeeded());
    assert!(detect_drift(&r, &config).unwrap().is_noop());
}

#[test]
fn every_change_is_accounted_for() {
    let mut r = GithubRepoReconciler::new(MockGithubClient::new());
    let repo = RepoSettings {
        description: None,
        private: false,
        default_branch: "main".into(),
        topics: vec![],
    };
    let config = obj(vec![("a", repo.to_json()), ("b", repo.to_json()), ("c", repo.to_json())]);
    let plan = detect_drift(&r, &config).unwrap();
    r.client_mut().fail_next("down");
    let o = r.apply(&plan).unwrap();
    assert_eq!(o.applied.len() + o.failed.len(), plan.change_count());
    assert_eq!(o.failed.len(), 1);
    assert_eq!(o.plan_id, plan.id);
}

#[test]
fn dns_converges() {
    let mut r = DnsRecordReconciler::new(MockDnsClient::with_records(&vec![
        record("old", "1.1.1.1"),
        record("api", "2.2.2.2"),
    ]));
    let config = Json::Array(vec![
        record("api", "3.3.3.3").to_json(),
        record("new", "4.4.4.4").to_json(),
    ]);
    let plan = detect_drift(&r, &config).unwrap();
    assert_eq!(plan.change_count(), 3);
    assert!(r.apply(&plan).unwrap().fully_succeeded());
    assert!(detect_drift(&r, &config).unwrap().is_noop());
}

#[test]
fn records_read_back() {
    let one = record("api", "1.2.3.4");
    let back = Record::from_json(&one.to_json()).unwrap();
    assert_eq!(back.value, one.value);
    assert_eq!(back.key.address(), one.key.address());
    let key = parse_address(&one.key.address()).unwrap();
    assert_eq!(key.zone, "ex.com");
    assert!(parse_address("nonsense").is_none());
}

#[test]
fn engines_keep_kinds_in_order() {
    let mut e = ConvergeEngine::new();
    e.register_shared("zebra", InMemoryKvReconciler::new());
    e.register_shared("apple", InMemoryKvReconciler::new());
    e.register_shared("mango", InMemoryKvReconciler::new());
    assert_eq!(e.kinds(), vec!["apple", "mango", "zebra"]);
    assert!(e.get("mango").is_some());
    assert!(e.get("kiwi").is_none());
    assert_eq!(e.len(), 3);
}

#[test]
fn operators_are_opposites() {
    let vals = || vec!["prod".to_string()];
    for l in [labels(&[]), labels(&[("env", "prod")]), labels(&[("env", "dev")])] {
        let is_in = LabelSelectorRequirement::new("env", LabelSelectorOperator::In, vals());
        let not_in = LabelSelectorRequirement::new("env", LabelSelectorOperator::NotIn, vals());
        assert_ne!(is_in.matches(&l), not_in.matches(&l));
        let there = LabelSelectorRequirement::key_exists("env");
        let gone = LabelSelectorRequirement::does_not_exist("env");
        assert_ne!(there.matches(&l), gone.matches(&l));
    }
}

fn on(name: &str, action: ResourceAction) -> ResourceChange {
    ResourceChange {
        address: ResourceAddress::root(
            ResourceKind::Managed,
            "aws_vpc".to_string(),
            name.to_string(),
        ),
        action,
        before: None,
        after: Some(n(1)),
    }
}

#[test]
fn resource_changes_come_back() {
    assert_eq!(kind(), "terraform");
    assert_eq!(magma_action_to_universal(ResourceAction::Read), Action::NoOp);
    assert_eq!(magma_action_to_universal(ResourceAction::Forget), Action::Delete);
    assert_eq!(magma_action_to_universal(ResourceAction::CreateThenDelete), Action::Replace);
    let plan = universal_plan(&vec![
        on("a", ResourceAction::Create),
        on("b", ResourceAction::Read),
        on("c", ResourceAction::DeleteThenCreate),
    ]);
    assert_eq!(plan.kind, "terraform");
    assert_eq!(plan.changes[0].address, "aws_vpc.a");
    let back = rebuild_changes(&plan);
    assert_eq!(back.len(), 2);
    assert_eq!(back[0].address.type_id.0, "aws_vpc");
    assert_eq!(back[0].address.name, "a");
    assert_eq!(back[0].action, ResourceAction::Create);
    assert_eq!(back[0].after, Some(n(1)));
    assert_eq!(back[1].action, ResourceAction::Replace);
}

#[test]
fn outcomes_of_resources_are_reshaped() {
    let plan = universal_plan(&vec![on("a", ResourceAction::Create)]);
    let a = || ResourceAddress::root(ResourceKind::Managed, "aws_vpc".into(), "a".into());
    let o = reshape_outcome(
        &plan,
        &vec![(a(), ResourceAction::Create)],
        &vec![(a(), ResourceAction::Delete, "boom".to_string())],
        Timestamp::at(1),
        Timestamp::at(2),
    );
    assert_eq!(o.applied[0].address, "aws_vpc.a");
    assert_eq!(o.failed[0].error, "boom");
    assert_eq!(o.failed[0].action, Action::Delete);
    assert_eq!(o.plan_id, plan.id);
    assert_eq!(o.finished_at, Timestamp::at(2));
    assert!(!o.fully_succeeded());
}

#[test]
fn misshapen_workspaces_are_refused() {
    let e = read_config(obj(vec![("resource", n(1))])).unwrap_err();
    assert_eq!(
        e.message(),
        "compute plan: magma_config: serialization: invalid type: integer `1`, expected a map"
    );
    let good = read_config(obj(vec![("resource", obj(vec![]))])).unwrap();
    assert!(good.resources.is_empty());
}

#[test]
fn plain_configurations_stay_as_they_are() {
    let v = obj(vec![
        ("a", Json::Array(vec![n(1), s("plain $ and { and }")])),
        ("b", obj(vec![("c", Json::Null)])),
    ]);
    assert_eq!(resolve_config(&v, &StrMap::new()).unwrap(), v);
    assert_eq!(resolve_string("%%{x}", &StrMap::new()).unwrap(), s("%{x}"));
}

#[test]
fn json_comes_back_through_its_type() {
    let ty = CtyType::object(vec![
        ("n".to_string(), CtyType::Number),
        ("l".to_string(), CtyType::list(CtyType::Bool)),
    ]);
    let v = obj(vec![("n", n(3)), ("l", Json::Array(vec![Json::Bool(true)]))]);
    assert_eq!(to_json(&from_json(&v, &ty).unwrap()), v);
    let any = Json::Array(vec![s("x"), obj(vec![("k", n(1))])]);
    assert_eq!(to_json(&from_json(&any, &CtyType::DynamicPseudoType).unwrap()), any);
}

#[test]
fn what_waits_for_a_cycle_is_in_it() {
    let ws = |x: &str| FlowWorkspace { name: x.into(), dir: x.into() };
    let edge = |a: &str, b: &str| FlowEdge {
        from: a.into(),
        from_output: "o".into(),
        to: b.into(),
        to_input: "i".into(),
    };
    let flow = FlowFile {
        workspaces: vec![ws("root"), ws("a"), ws("b"), ws("tail")],
        edges: vec![edge("root", "a"), edge("a", "b"), edge("b", "a"), edge("b", "tail")],
        optimization: None,
    };
    match topological_order(&flow) {
        Err(FlowError::Cycle(names)) => assert_eq!(names, vec!["a", "b", "tail"]),
        other => panic!("expected Cycle, got {other:?}"),
    }
}

#[test]
fn orders_put_sources_before_targets() {
    let ws = |x: &str| FlowWorkspace { name: x.into(), dir: x.into() };
    let edge = |a: &str, b: &str| FlowEdge {
        from: a.into(),
        from_output: "o".into(),
        to: b.into(),
        to_input: "i".into(),
    };
    let flow = FlowFile {
        workspaces: vec![ws("c"), ws("b"), ws("a"), ws("d")],
        edges: vec![edge("a", "b"), edge("b", "c"), edge("a", "c")],
        optimization: None,
    };
    assert_eq!(topological_order(&flow).unwrap(), vec!["a", "d", "b", "c"]);
}

#[test]
fn records_are_known_by_zone_name_and_type() {
    let mut other_type = record("www", "1.1.1.1");
    other_type.key.rtype = "TXT".into();
    let have = Json::Array(vec![record("www", "1.1.1.1").to_json()]);

    let update = plan_records(&Json::Array(vec![record("www", "2.2.2.2").to_json()]), &have).unwrap();
    assert_eq!(update.changes.len(), 1);
    assert_eq!(update.changes[0].action, Action::Update);
    assert_eq!(update.changes[0].address, "dns_record:ex.com:www:a");

    let swap = plan_records(&Json::Array(vec![other_type.to_json()]), &have).unwrap();
    let actions: Vec<Action> = swap.changes.iter().map(|c| c.action).collect();
    assert_eq!(actions, vec![Action::Delete, Action::Create]);

    assert!(plan_records(&have, &have).unwrap().changes.is_empty());
}

#[test]
fn layers_merge_from_the_outside_in() {
    let outer = ReactivePolicy {
        failure_escalation: Some(FailureEscalation { max_consecutive_failures: 3, action: "a".into() }),
        phase_timeout: None,
        verified_blocked: Some(VerifiedBlockedPolicy { timeout: "1h".into(), action: "b".into() }),
    };
    let inner = || ReactivePolicy {
        failure_escalation: Some(FailureEscalation { max_consecutive_failures: 9, action: "c".into() }),
        phase_timeout: None,
        verified_blocked: None,
    };
    let mut merged = ReactivePolicy::default();
    merged.merge(&outer);
    merged.merge(&inner());
    let layered = resolve(&vec![Some(outer), None, Some(inner())], ReactivePolicy::default());
    let at_once = resolve(&vec![Some(merged)], ReactivePolicy::default());
    assert_eq!(layered, at_once);
    assert_eq!(layered.failure_escalation.unwrap().max_consecutive_failures, 9);
    assert_eq!(layered.verified_blocked.unwrap().timeout, "1h");
    assert!(layered.phase_timeout.is_none());
}
