use magma::converge::apply::{
    ApplyCounts, ApplyDiff, ApplyOutcome, ApplyReport, ApplyStatus,
};
use magma::converge::inventory::{Inventory, ResourceRef};

fn dep_ref(name: &str) -> ResourceRef {
    ResourceRef::namespaced("apps", "v1", "Deployment", "ns", name)
}

#[test]
fn apply_diff_constructor() {
    let d = ApplyDiff::new(3, "image: nginx:1.24 → 1.25, replicas: 2 → 3");
    assert_eq!(d.fields_changed, 3);
    assert!(d.summary.contains("image"));
}

#[test]
fn outcome_kinds_stable_discriminant() {
    assert_eq!(
        ApplyOutcome::Created { payload: dep_ref("a") }.kind(),
        "created"
    );
    assert_eq!(
        ApplyOutcome::Updated {
            payload: dep_ref("a"),
            diff: ApplyDiff::new(1, "x"),
        }
        .kind(),
        "updated"
    );
    assert_eq!(
        ApplyOutcome::Unchanged { payload: dep_ref("a") }.kind(),
        "unchanged"
    );
    assert_eq!(
        ApplyOutcome::<ResourceRef>::Deleted { ref_: dep_ref("a") }.kind(),
        "deleted"
    );
    assert_eq!(
        ApplyOutcome::<ResourceRef>::Skipped { reason: "x".into() }.kind(),
        "skipped"
    );
    assert_eq!(
        ApplyOutcome::<ResourceRef>::Failed {
            reason: "x".into(),
            error: "y".into(),
        }
        .kind(),
        "failed"
    );
    assert_eq!(
        ApplyOutcome::<ResourceRef>::Conflict {
            conflict_with: "fm".into(),
            fields: vec!["spec.replicas".into()],
        }
        .kind(),
        "conflict"
    );
}

#[test]
fn outcome_is_success_classification() {
    assert!(ApplyOutcome::Created { payload: dep_ref("a") }.is_success());
    assert!(
        ApplyOutcome::Updated {
            payload: dep_ref("a"),
            diff: ApplyDiff::default(),
        }
        .is_success()
    );
    assert!(ApplyOutcome::Unchanged { payload: dep_ref("a") }.is_success());
    assert!(ApplyOutcome::<ResourceRef>::Deleted { ref_: dep_ref("a") }.is_success());

    assert!(!ApplyOutcome::<ResourceRef>::Skipped { reason: "x".into() }.is_success());
    assert!(
        !ApplyOutcome::<ResourceRef>::Failed {
            reason: "x".into(),
            error: "y".into(),
        }
        .is_success()
    );
    assert!(
        !ApplyOutcome::<ResourceRef>::Conflict {
            conflict_with: "fm".into(),
            fields: vec![],
        }
        .is_success()
    );
}

#[test]
fn outcome_is_failed_classification() {
    assert!(
        ApplyOutcome::<ResourceRef>::Failed {
            reason: "x".into(),
            error: "y".into(),
        }
        .is_failed()
    );
    assert!(
        ApplyOutcome::<ResourceRef>::Conflict {
            conflict_with: "fm".into(),
            fields: vec![],
        }
        .is_failed()
    );
    assert!(!ApplyOutcome::Created { payload: dep_ref("a") }.is_failed());
    assert!(!ApplyOutcome::<ResourceRef>::Skipped { reason: "x".into() }.is_failed());
}

#[test]
fn outcome_is_skipped_only_for_skipped() {
    assert!(ApplyOutcome::<ResourceRef>::Skipped { reason: "x".into() }.is_skipped());
    assert!(!ApplyOutcome::Created { payload: dep_ref("a") }.is_skipped());
    assert!(
        !ApplyOutcome::<ResourceRef>::Failed {
            reason: "x".into(),
            error: "y".into(),
        }
        .is_skipped()
    );
}

#[test]
fn outcome_changed_state_distinguishes_unchanged_from_writes() {
    assert!(ApplyOutcome::Created { payload: dep_ref("a") }.changed_state());
    assert!(
        ApplyOutcome::Updated {
            payload: dep_ref("a"),
            diff: ApplyDiff::default(),
        }
        .changed_state()
    );
    assert!(ApplyOutcome::<ResourceRef>::Deleted { ref_: dep_ref("a") }.changed_state());

    assert!(
        !ApplyOutcome::Unchanged { payload: dep_ref("a") }.changed_state(),
        "Unchanged is the idempotent fast-path; no state change"
    );
    assert!(!ApplyOutcome::<ResourceRef>::Skipped { reason: "x".into() }.changed_state());
    assert!(
        !ApplyOutcome::<ResourceRef>::Failed {
            reason: "x".into(),
            error: "y".into(),
        }
        .changed_state()
    );
}

#[test]
fn apply_counts_arithmetic() {
    let c = ApplyCounts {
        created: 1,
        updated: 2,
        unchanged: 3,
        deleted: 4,
        skipped: 5,
        failed: 6,
        conflict: 7,
    };
    assert_eq!(c.total(), 28);
    assert_eq!(c.success(), 10); // 1+2+3+4
    assert_eq!(c.errors(), 13);  // 6+7
    assert_eq!(c.changes(), 7);  // 1+2+4 (Created+Updated+Deleted)
}

#[test]
fn report_empty_is_empty_status() {
    let r: ApplyReport = ApplyReport::new();
    assert!(r.is_empty());
    assert_eq!(r.overall_status(), ApplyStatus::Empty);
}

#[test]
fn report_all_success_is_all_succeeded() {
    let mut r: ApplyReport = ApplyReport::new();
    r.push(ApplyOutcome::Created { payload: dep_ref("a") });
    r.push(ApplyOutcome::Updated {
        payload: dep_ref("b"),
        diff: ApplyDiff::default(),
    });
    r.push(ApplyOutcome::Unchanged { payload: dep_ref("c") });
    assert_eq!(r.overall_status(), ApplyStatus::AllSucceeded);
    assert!(!r.overall_status().is_error());
}

#[test]
fn report_with_one_skipped_is_succeeded_with_skipped() {
    let mut r: ApplyReport = ApplyReport::new();
    r.push(ApplyOutcome::Created { payload: dep_ref("a") });
    r.push(ApplyOutcome::Skipped { reason: "dep-not-ready".into() });
    assert_eq!(r.overall_status(), ApplyStatus::SucceededWithSkipped);
}

#[test]
fn report_with_only_skipped_treated_as_empty() {
    let mut r: ApplyReport = ApplyReport::new();
    r.push(ApplyOutcome::Skipped { reason: "all-deps-not-ready".into() });
    r.push(ApplyOutcome::Skipped { reason: "still-not-ready".into() });
    assert_eq!(
        r.overall_status(),
        ApplyStatus::Empty,
        "only skips means nothing was attempted — equivalent to Empty"
    );
}

#[test]
fn report_with_failed_is_failed_status() {
    let mut r: ApplyReport = ApplyReport::new();
    r.push(ApplyOutcome::Created { payload: dep_ref("a") });
    r.push(ApplyOutcome::Failed {
        reason: "ApplyFailed".into(),
        error: "boom".into(),
    });
    assert_eq!(r.overall_status(), ApplyStatus::Failed);
    assert!(r.overall_status().is_error());
}

#[test]
fn report_conflict_takes_precedence_over_failed() {
    // Conflict is the worst outcome because it requires operator
    // intervention (takeover, scope narrowing) — never a simple
    // retry. Even with mixed Failed + Conflict, Conflict wins.
    let mut r: ApplyReport = ApplyReport::new();
    r.push(ApplyOutcome::Created { payload: dep_ref("a") });
    r.push(ApplyOutcome::Failed {
        reason: "x".into(),
        error: "y".into(),
    });
    r.push(ApplyOutcome::Conflict {
        conflict_with: "other".into(),
        fields: vec!["spec.replicas".into()],
    });
    assert_eq!(r.overall_status(), ApplyStatus::Conflict);
    assert!(r.overall_status().is_error());
}

#[test]
fn apply_report_counts_partition_total() {
    let mut r: ApplyReport = ApplyReport::new();
    r.push(ApplyOutcome::Created { payload: dep_ref("a") });
    r.push(ApplyOutcome::Created { payload: dep_ref("b") });
    r.push(ApplyOutcome::Updated {
        payload: dep_ref("c"),
        diff: ApplyDiff::default(),
    });
    r.push(ApplyOutcome::Unchanged { payload: dep_ref("d") });
    r.push(ApplyOutcome::Deleted { ref_: dep_ref("e") });
    r.push(ApplyOutcome::Skipped { reason: "x".into() });
    r.push(ApplyOutcome::Failed {
        reason: "x".into(),
        error: "y".into(),
    });
    r.push(ApplyOutcome::Conflict {
        conflict_with: "x".into(),
        fields: vec![],
    });

    let c = r.counts();
    assert_eq!(c.created, 2);
    assert_eq!(c.updated, 1);
    assert_eq!(c.unchanged, 1);
    assert_eq!(c.deleted, 1);
    assert_eq!(c.skipped, 1);
    assert_eq!(c.failed, 1);
    assert_eq!(c.conflict, 1);
    assert_eq!(c.total(), 8);
    assert_eq!(c.total(), r.len());
}

#[test]
fn report_iter_in_insert_order() {
    let mut r: ApplyReport = ApplyReport::new();
    let names = ["x", "a", "z", "m"];
    for n in &names {
        r.push(ApplyOutcome::Created { payload: dep_ref(n) });
    }
    let iter_order: Vec<&str> = r
        .iter()
        .iter()
        .filter_map(|o| match o {
            ApplyOutcome::Created { payload } => Some(payload.name.as_str()),
            _ => None,
        })
        .collect();
    assert_eq!(iter_order, names);
}

#[test]
fn apply_status_name_discriminant() {
    assert_eq!(ApplyStatus::Empty.name(), "empty");
    assert_eq!(ApplyStatus::AllSucceeded.name(), "all-succeeded");
    assert_eq!(
        ApplyStatus::SucceededWithSkipped.name(),
        "succeeded-with-skipped"
    );
    assert_eq!(ApplyStatus::Failed.name(), "failed");
    assert_eq!(ApplyStatus::Conflict.name(), "conflict");
}

#[test]
fn apply_status_is_error() {
    assert!(!ApplyStatus::Empty.is_error());
    assert!(!ApplyStatus::AllSucceeded.is_error());
    assert!(!ApplyStatus::SucceededWithSkipped.is_error());
    assert!(ApplyStatus::Failed.is_error());
    assert!(ApplyStatus::Conflict.is_error());
}

#[test]
fn composes_with_inventory_apply_pipeline() {
    // Operator declared three resources.
    let inventory = Inventory::from_iter(&vec![dep_ref("a"), dep_ref("b"), dep_ref("c")]);

    // Reconciler applies each; results vary.
    let mut report: ApplyReport<ResourceRef> = ApplyReport::new();
    for r in inventory.iter().iter() {
        let outcome = match r.name.as_str() {
            "a" => ApplyOutcome::Created { payload: r.clone() },
            "b" => ApplyOutcome::Unchanged { payload: r.clone() },
            "c" => ApplyOutcome::Skipped {
                reason: "dep-not-ready".into(),
            },
            _ => unreachable!(),
        };
        report.push(outcome);
    }

    // Aggregate status routes phase advance.
    assert_eq!(report.overall_status(), ApplyStatus::SucceededWithSkipped);

    let c = report.counts();
    assert_eq!(c.created, 1);
    assert_eq!(c.unchanged, 1);
    assert_eq!(c.skipped, 1);
    assert_eq!(c.changes(), 1); // only Created counts as a state change
}
