use magma::converge::policy::{
    resolve, CascadePolicy, FailureEscalation, PhaseTimeoutPolicy, ReactivePolicy,
    VerifiedBlockedPolicy,
};

fn fe(n: u32, action: &str) -> FailureEscalation {
    FailureEscalation {
        max_consecutive_failures: n,
        action: action.into(),
    }
}

fn pt(c: &str, p: &str, a: &str, action: &str) -> PhaseTimeoutPolicy {
    PhaseTimeoutPolicy {
        compiling: c.into(),
        planning: p.into(),
        applying: a.into(),
        action: action.into(),
    }
}

fn vb(t: &str, action: &str) -> VerifiedBlockedPolicy {
    VerifiedBlockedPolicy {
        timeout: t.into(),
        action: action.into(),
    }
}

fn default_policy() -> ReactivePolicy {
    ReactivePolicy {
        failure_escalation: Some(fe(5, "Alert")),
        phase_timeout: Some(pt("5m", "10m", "30m", "Alert")),
        verified_blocked: Some(vb("10m", "Alert")),
    }
}

fn samples() -> Vec<ReactivePolicy> {
    vec![
        ReactivePolicy {
            failure_escalation: Some(fe(10, "Alert")),
            ..Default::default()
        },
        ReactivePolicy {
            phase_timeout: Some(pt("1m", "2m", "3m", "Suspend")),
            ..Default::default()
        },
        ReactivePolicy {
            verified_blocked: Some(vb("1m", "Page")),
            ..Default::default()
        },
        ReactivePolicy {
            failure_escalation: Some(fe(99, "Page")),
            ..Default::default()
        },
    ]
}

#[test]
fn reactive_policy_obeys_the_cascade_law_harness() {
    assert_eq!(resolve(&vec![], default_policy()), default_policy());
    let empty: ReactivePolicy = Default::default();
    assert_eq!(resolve(&vec![Some(empty)], default_policy()), default_policy());
    let n = samples().len();
    for i in 0..n {
        let once = resolve(&vec![Some(samples().remove(i))], default_policy());
        let twice = resolve(
            &vec![Some(samples().remove(i)), Some(samples().remove(i))],
            default_policy(),
        );
        assert_eq!(once, twice);
        let mut merged = samples().remove(i);
        merged.merge(&samples().remove(i));
        assert_eq!(merged, samples().remove(i));
        assert_eq!(once, resolve(&vec![Some(samples().remove(i))], default_policy()));
    }
    let all: Vec<Option<ReactivePolicy>> = samples().into_iter().map(Some).collect();
    let r = resolve(&all, default_policy());
    assert_eq!(r.failure_escalation, Some(fe(99, "Page")));
    assert_eq!(r.phase_timeout, Some(pt("1m", "2m", "3m", "Suspend")));
    assert_eq!(r.verified_blocked, Some(vb("1m", "Page")));
}

#[test]
fn none_layer_is_skipped() {
    // A None layer slot is skipped — useful when a layer is
    // conditionally present (e.g. workspace policy absent).
    let inner = ReactivePolicy {
        failure_escalation: Some(fe(5, "Page")),
        ..Default::default()
    };

    let result =
        resolve(&vec![None, Some(inner), None], ReactivePolicy::default());

    assert_eq!(result.failure_escalation, Some(fe(5, "Page")));
}
