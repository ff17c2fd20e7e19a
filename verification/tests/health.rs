use magma::converge::health::{
    AlwaysReady, ChainedHealthCheck, ClosureCheck, EitherCheck, HealthCheck, HealthReport,
    HealthReportExt, NeverReady, ReadyState,
};
use magma::converge::inventory::{Inventory, ResourceRef};
use magma::converge::outcome::OutcomeLattice;
use std::collections::BTreeMap;

fn dep(ns: &str, name: &str) -> ResourceRef {
    ResourceRef::namespaced("apps", "v1", "Deployment", ns, name)
}

struct FakeResource {
    ref_: ResourceRef,
    replicas_ready: u32,
    replicas_desired: u32,
}

#[test]
fn ready_state_predicates() {
    assert!(ReadyState::Ready.is_ready());
    assert!(!ReadyState::Ready.is_in_progress());

    let p = ReadyState::InProgress {
        reason: "rolling out".into(),
    };
    assert!(p.is_in_progress());
    assert!(!p.is_ready());

    let f = ReadyState::Failed {
        reason: "ImagePullBackOff".into(),
    };
    assert!(f.is_failed());
    assert!(!f.is_ready());

    assert!(ReadyState::Unknown.is_unknown());
}

#[test]
fn ready_state_severity_order() {
    // Failed > InProgress > Unknown > Ready
    assert!(
        ReadyState::Failed { reason: "x".into() }.severity()
            > ReadyState::InProgress { reason: "x".into() }.severity()
    );
    assert!(
        ReadyState::InProgress { reason: "x".into() }.severity()
            > ReadyState::Unknown.severity()
    );
    assert!(ReadyState::Unknown.severity() > ReadyState::Ready.severity());
}

#[test]
fn ready_state_state_discriminant() {
    assert_eq!(ReadyState::Ready.state(), "ready");
    assert_eq!(
        ReadyState::InProgress { reason: "x".into() }.state(),
        "in-progress"
    );
    assert_eq!(ReadyState::Failed { reason: "x".into() }.state(), "failed");
    assert_eq!(ReadyState::Unknown.state(), "unknown");
}

#[test]
fn always_ready_returns_ready() {
    let c = AlwaysReady;
    let r: i32 = 42;
    assert!(c.evaluate(&r).is_ready());
}

#[test]
fn never_ready_returns_failed_with_reason() {
    let c = NeverReady {
        reason: "circuit breaker",
    };
    let r: i32 = 42;
    match c.evaluate(&r) {
        ReadyState::Failed { reason } => assert_eq!(reason, "circuit breaker"),
        other => panic!("expected Failed, got {other:?}"),
    }
}

#[test]
fn closure_check_runs_closure() {
    let c = ClosureCheck::new(|n: &i32| {
        if *n > 0 {
            ReadyState::Ready
        } else {
            ReadyState::Failed {
                reason: format!("non-positive: {n}"),
            }
        }
    });
    assert!(c.evaluate(&5).is_ready());
    match c.evaluate(&-1) {
        ReadyState::Failed { reason } => assert!(reason.contains("non-positive")),
        other => panic!("expected Failed, got {other:?}"),
    }
}

#[test]
fn chained_empty_returns_ready() {
    let c: ChainedHealthCheck<AlwaysReady> = ChainedHealthCheck::new();
    assert!(c.is_empty());
    assert!(c.evaluate(&42).is_ready());
}

#[test]
fn chained_all_ready_returns_ready() {
    let c: ChainedHealthCheck<AlwaysReady> = ChainedHealthCheck::new()
        .with_check(AlwaysReady)
        .with_check(AlwaysReady)
        .with_check(AlwaysReady);
    assert_eq!(c.len(), 3);
    assert!(c.evaluate(&42).is_ready());
}

#[test]
fn chained_first_non_ready_wins() {
    // First non-Ready check determines the outcome.
    let c: ChainedHealthCheck<EitherCheck<AlwaysReady, NeverReady>> = ChainedHealthCheck::new()
        .with_check(EitherCheck::First(AlwaysReady))
        .with_check(EitherCheck::Second(NeverReady {
            reason: "first failure",
        }))
        .with_check(EitherCheck::Second(NeverReady {
            reason: "second failure",
        }));

    match c.evaluate(&42) {
        ReadyState::Failed { reason } => assert_eq!(reason, "first failure"),
        other => panic!("expected first Failed, got {other:?}"),
    }
}

#[test]
fn chained_dyn_dispatch() {
    // Heterogeneous checks behind one chain.
    let in_prog = ClosureCheck::new(|_: &i32| ReadyState::InProgress {
        reason: "wait".into(),
    });
    let c = ChainedHealthCheck::new()
        .with_check(EitherCheck::First(AlwaysReady))
        .with_check(EitherCheck::Second(in_prog));
    assert!(c.evaluate(&42).is_in_progress());
}

#[test]
fn report_empty_overall_is_ready() {
    let r = HealthReport::new();
    assert!(r.is_empty());
    assert!(
        r.overall().is_ready(),
        "vacuous truth: no resources → Ready"
    );
    assert_eq!(r.counts().total(), 0);
}

#[test]
fn report_all_ready_is_ready() {
    let mut r = HealthReport::new();
    r.set(dep("ns", "a"), ReadyState::Ready);
    r.set(dep("ns", "b"), ReadyState::Ready);
    assert!(r.overall().is_ready());
    assert_eq!(r.counts().ready, 2);
}

#[test]
fn report_any_failed_aggregates_to_failed() {
    let mut r = HealthReport::new();
    r.set(dep("ns", "a"), ReadyState::Ready);
    r.set(
        dep("ns", "b"),
        ReadyState::Failed {
            reason: "broken".into(),
        },
    );
    r.set(dep("ns", "c"), ReadyState::Ready);

    match r.overall() {
        ReadyState::Failed { reason } => assert_eq!(reason, "broken"),
        other => panic!("expected Failed aggregate, got {other:?}"),
    }
}

#[test]
fn report_in_progress_beats_unknown() {
    let mut r = HealthReport::new();
    r.set(dep("ns", "a"), ReadyState::Unknown);
    r.set(
        dep("ns", "b"),
        ReadyState::InProgress {
            reason: "rolling".into(),
        },
    );

    assert!(r.overall().is_in_progress());
}

#[test]
fn report_failed_beats_in_progress_beats_unknown_beats_ready() {
    let mut r = HealthReport::new();
    r.set(dep("ns", "a"), ReadyState::Ready);
    r.set(dep("ns", "b"), ReadyState::Unknown);
    r.set(
        dep("ns", "c"),
        ReadyState::InProgress {
            reason: "rolling".into(),
        },
    );
    r.set(
        dep("ns", "d"),
        ReadyState::Failed {
            reason: "broken".into(),
        },
    );

    // Worst (Failed) wins.
    assert!(r.overall().is_failed());
}

#[test]
fn health_report_counts_partition_total() {
    let mut r = HealthReport::new();
    r.set(dep("ns", "a"), ReadyState::Ready);
    r.set(dep("ns", "b"), ReadyState::Ready);
    r.set(
        dep("ns", "c"),
        ReadyState::InProgress {
            reason: "rolling".into(),
        },
    );
    r.set(dep("ns", "d"), ReadyState::Failed { reason: "x".into() });
    r.set(dep("ns", "e"), ReadyState::Unknown);

    let c = r.counts();
    assert_eq!(c.ready, 2);
    assert_eq!(c.in_progress, 1);
    assert_eq!(c.failed, 1);
    assert_eq!(c.unknown, 1);
    assert_eq!(c.total(), 5);
    assert_eq!(c.total(), r.len());
}

#[test]
fn report_iter_in_canonical_resource_ref_order() {
    let mut r = HealthReport::new();
    r.set(dep("z-ns", "z"), ReadyState::Ready);
    r.set(dep("a-ns", "a"), ReadyState::Ready);
    r.set(dep("m-ns", "m"), ReadyState::Ready);

    let order: Vec<String> = r
        .iter()
        .iter()
        .map(|(rr, _)| rr.namespace.clone().unwrap_or_default())
        .collect();
    // BTreeMap iterates in sorted ResourceRef order; ResourceRef
    // sorts by (group, version, kind, namespace, name); all share
    // the same group+version+kind so namespace sort wins.
    assert_eq!(order, vec!["a-ns", "m-ns", "z-ns"]);
}

#[test]
fn composes_inventory_check_and_report() {
    let inventory = Inventory::from_iter(&vec![dep("ns", "a"), dep("ns", "b"), dep("ns", "c")]);

    let cluster_state: BTreeMap<ResourceRef, FakeResource> = [
        (
            dep("ns", "a"),
            FakeResource {
                ref_: dep("ns", "a"),
                replicas_ready: 3,
                replicas_desired: 3,
            },
        ),
        (
            dep("ns", "b"),
            FakeResource {
                ref_: dep("ns", "b"),
                replicas_ready: 1,
                replicas_desired: 3,
            },
        ),
        (
            dep("ns", "c"),
            FakeResource {
                ref_: dep("ns", "c"),
                replicas_ready: 0,
                replicas_desired: 0,
            },
        ),
    ]
    .into_iter()
    .collect();

    let check = ClosureCheck::new(|r: &FakeResource| {
        if r.replicas_desired == 0 || r.replicas_ready == r.replicas_desired {
            ReadyState::Ready
        } else {
            ReadyState::InProgress {
                reason: format!(
                    "{}/{} replicas ready ({})",
                    r.replicas_ready, r.replicas_desired, r.ref_.text()
                ),
            }
        }
    });

    let mut report = HealthReport::new();
    for r in inventory.iter().iter() {
        let state = check.evaluate(&cluster_state[r]);
        report.set(r.clone(), state);
    }

    // 2 Ready, 1 InProgress.
    let c = report.counts();
    assert_eq!(c.ready, 2);
    assert_eq!(c.in_progress, 1);
    assert!(report.overall().is_in_progress());
}
