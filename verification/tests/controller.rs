use magma::controller::{
    conclude, decide, settle, ControllerError, LifecycleState, Next, Phase, ReconcileController,
    ReconcileResult,
};
use magma::converge::inmemory::InMemoryKvReconciler;
use magma::converge::{build_outcome, change, Action, FailedChange, Plan, ReconcilerError};
use magma::drift::{DriftDecision, DriftPolicy, PolicyRule};
use magma::json::Json;
use magma::ordmap::StrMap;
use magma::time::Timestamp;

fn s(x: &str) -> Json {
    Json::string(x)
}

fn n(x: i64) -> Json {
    Json::integer(x)
}

fn obj(members: Vec<(&str, Json)>) -> Json {
    Json::object(members.into_iter().map(|(k, v)| (k.to_string(), v)).collect())
}

fn make_controller() -> ReconcileController<InMemoryKvReconciler> {
    ReconcileController::new(
        InMemoryKvReconciler::new(),
        DriftPolicy::conservative_default(),
        "ws-1",
    )
}

#[test]
fn no_change_path_reaches_stable() {
    let mut controller = make_controller();
    let outcome = controller.reconcile(&obj(vec![])).unwrap();
    assert!(matches!(outcome.result, ReconcileResult::NoChange { .. }));
    assert_eq!(outcome.lifecycle.current, Phase::Stable);
    assert!(outcome.fully_succeeded());
    assert!(outcome.bundle.drift.events.is_empty());
}

#[test]
fn applied_path_walks_full_fsm() {
    let mut controller = make_controller();
    let outcome = controller.reconcile(&obj(vec![("a", n(1)), ("b", n(2))])).unwrap();
    match &outcome.result {
        ReconcileResult::Applied { outcome: o, plan, .. } => {
            assert!(o.fully_succeeded());
            assert_eq!(o.applied.len(), 2);
            assert_eq!(plan.change_count(), 2);
        }
        other => panic!("expected Applied, got {other:?}"),
    }
    assert_eq!(outcome.lifecycle.current, Phase::Stable);
    assert_eq!(outcome.lifecycle.len(), 4);
    let phases: Vec<Phase> = outcome.lifecycle.history.iter().map(|t| t.to).collect();
    assert_eq!(phases, vec![Phase::Planning, Phase::Applying, Phase::Verifying, Phase::Stable]);
    assert_eq!(outcome.bundle.drift.summary.total_changes, 2);
    assert_eq!(&outcome.bundle.drift.plan_id, outcome.result.plan_id());
    assert_eq!(outcome.bundle.change_count(), 2);
    assert_eq!(outcome.bundle.kind, "inmemory_kv");
    assert_eq!(outcome.bundle.workspace, "ws-1");
    assert_eq!(outcome.bundle.outcome.as_ref().unwrap().applied.len(), 2);
    assert_eq!(outcome.bundle.lifecycle.len(), 4);
}

#[test]
fn held_for_approval_path_stops_at_approving() {
    let mut state = StrMap::new();
    state.insert("doomed".to_string(), s("x"));
    let mut controller = ReconcileController::new(
        InMemoryKvReconciler::with_state(state),
        DriftPolicy::conservative_default(),
        "ws-held",
    );
    let outcome = controller.reconcile(&obj(vec![])).unwrap();
    match &outcome.result {
        ReconcileResult::HeldForApproval { held, plan, .. } => {
            assert_eq!(*held, 1);
            assert_eq!(plan.change_count(), 1);
        }
        other => panic!("expected HeldForApproval, got {other:?}"),
    }
    assert_eq!(outcome.lifecycle.current, Phase::Approving);
    assert!(!outcome.fully_succeeded());
    assert_eq!(
        outcome.lifecycle.history[1].reason,
        "policy requires approval on 1 change(s)"
    );
    assert!(controller.reconciler.snapshot().contains_key("doomed"));
}

#[test]
fn refused_path_stops_at_refused() {
    let policy = DriftPolicy {
        rules: vec![PolicyRule {
            name: "refuse-all".into(),
            severity: None,
            action: None,
            address_prefix: None,
            decision: DriftDecision::Refuse,
        }],
        fallback: DriftDecision::Refuse,
    };
    let mut controller =
        ReconcileController::new(InMemoryKvReconciler::new(), policy, "ws-refuse");
    let outcome = controller.reconcile(&obj(vec![("x", n(1))])).unwrap();
    match &outcome.result {
        ReconcileResult::Refused { refused, plan, .. } => {
            assert_eq!(*refused, 1);
            assert_eq!(plan.change_count(), 1);
        }
        other => panic!("expected Refused, got {other:?}"),
    }
    assert_eq!(outcome.lifecycle.current, Phase::Refused);
    assert_eq!(outcome.lifecycle.history[1].reason, "policy refused 1 change(s)");
    assert!(controller.reconciler.snapshot().is_empty());
}

#[test]
fn the_loop_runs_for_its_kind() {
    let mut controller = make_controller();
    assert_eq!(controller.kind(), "inmemory_kv");
    let outcome = controller.reconcile(&obj(vec![("y", n(7))])).unwrap();
    assert!(outcome.fully_succeeded());
}

#[test]
fn the_second_run_has_nothing_to_do() {
    let mut controller = make_controller();
    let config = obj(vec![("a", n(1)), ("b", s("x"))]);
    controller.reconcile(&config).unwrap();
    let second = controller.reconcile(&config).unwrap();
    assert!(matches!(second.result, ReconcileResult::NoChange { .. }));
    assert_eq!(second.lifecycle.history[0].from, Phase::Idle);
    assert_eq!(second.lifecycle.history[0].to, Phase::Planning);
    assert_eq!(second.lifecycle.history[0].reason, "controller: trigger");
}

#[test]
fn one_refusal_goes_before_approval() {
    let mut state = StrMap::new();
    state.insert("doomed".to_string(), s("x"));
    let policy = DriftPolicy {
        rules: vec![PolicyRule {
            name: "refuse-creates".into(),
            severity: None,
            action: Some(magma::converge::Action::Create),
            address_prefix: None,
            decision: DriftDecision::Refuse,
        }],
        fallback: DriftDecision::RequireApproval,
    };
    let mut controller =
        ReconcileController::new(InMemoryKvReconciler::with_state(state), policy, "ws");
    let outcome = controller.reconcile(&obj(vec![("new", n(1))])).unwrap();
    assert!(matches!(outcome.result, ReconcileResult::Refused { refused: 1, .. }));
}

#[test]
fn a_misshapen_configuration_is_an_error() {
    let mut controller = make_controller();
    match controller.reconcile(&n(1)) {
        Err(ControllerError::Reconciler(e)) => {
            assert!(e.message().contains("config not a map"));
            assert!(ControllerError::Reconciler(e).message().starts_with("reconciler: "));
        }
        other => panic!("expected an error, got {other:?}"),
    }
}

#[test]
fn controller_errors_say_what_failed() {
    assert_eq!(
        ControllerError::Reconciler(ReconcilerError::Apply("x".into())).message(),
        "reconciler: apply: x"
    );
    assert_eq!(ControllerError::FsmTransition("x".into()).message(), "fsm transition: x");
    assert_eq!(ControllerError::Bundle("x".into()).message(), "bundle: x");
}

#[test]
fn a_new_lifecycle_is_idle() {
    let l = LifecycleState::new();
    assert_eq!(l.current, Phase::Idle);
    assert!(l.is_empty());
    assert_eq!(l.len(), 0);
}

#[test]
fn a_plan_that_does_nothing_stops() {
    let plan = Plan::new("k", vec![change("a", Action::NoOp, None, None)]);
    match decide(plan, &DriftPolicy::conservative_default()) {
        Next::Stop(ReconcileResult::NoChange { plan }) => assert_eq!(plan.changes.len(), 1),
        other => panic!("{other:?}"),
    }
}

#[test]
fn refusal_and_approval_stop_a_plan() {
    let policy = |decision| DriftPolicy { rules: vec![], fallback: decision };
    let plan = || Plan::new("k", vec![change("a", Action::Create, None, Some(n(1)))]);
    match decide(plan(), &policy(DriftDecision::Refuse)) {
        Next::Stop(ReconcileResult::Refused { refused, .. }) => assert_eq!(refused, 1),
        other => panic!("{other:?}"),
    }
    match decide(plan(), &policy(DriftDecision::RequireApproval)) {
        Next::Stop(ReconcileResult::HeldForApproval { held, .. }) => assert_eq!(held, 1),
        other => panic!("{other:?}"),
    }
    match decide(plan(), &policy(DriftDecision::AutoCorrect)) {
        Next::Go { plan, report } => {
            assert_eq!(plan.changes.len(), 1);
            assert_eq!(report.summary.auto_corrected, 1);
        }
        other => panic!("{other:?}"),
    }
}

#[test]
fn what_failed_tells_how_a_plan_ended() {
    let policy = DriftPolicy { rules: vec![], fallback: DriftDecision::AutoCorrect };
    let go = || {
        let plan = Plan::new("k", vec![change("a", Action::Create, None, Some(n(1)))]);
        match decide(plan, &policy) {
            Next::Go { plan, report } => (plan, report),
            other => panic!("{other:?}"),
        }
    };
    let (plan, report) = go();
    let outcome = build_outcome(&plan, vec![], vec![], Timestamp::at(0));
    let result = settle(plan, report, outcome);
    assert!(matches!(result, ReconcileResult::Applied { .. }));
    assert!(conclude("k", "ws", result, &policy).fully_succeeded());

    let (plan, report) = go();
    let fault = FailedChange { address: "a".into(), action: Action::Create, error: "no".into() };
    let outcome = build_outcome(&plan, vec![], vec![fault], Timestamp::at(0));
    let concluded = conclude("k", "ws", settle(plan, report, outcome), &policy);
    assert!(matches!(concluded.result, ReconcileResult::AppliedWithFailures { .. }));
    assert_eq!(concluded.lifecycle.current, Phase::Failed);
    assert!(!concluded.fully_succeeded());
}
