use magma::converge::drift::DriftPolicy;

#[test]
fn default_is_warn() {
    let p = DriftPolicy::default();
    assert_eq!(p.mode(), "warn");
    assert!(p.detects(), "Warn must detect");
    assert!(!p.corrects(), "Warn must NOT auto-correct");
}

#[test]
fn disabled_does_not_detect() {
    let p = DriftPolicy::Disabled;
    assert!(!p.detects());
    assert!(!p.corrects());
}

#[test]
fn enabled_detects_and_corrects() {
    let p = DriftPolicy::Enabled {
        ignore_paths: vec![],
    };
    assert!(p.detects());
    assert!(p.corrects());
}

#[test]
fn warn_detects_but_not_corrects() {
    let p = DriftPolicy::Warn;
    assert!(p.detects());
    assert!(!p.corrects());
}

#[test]
fn detect_corrects_are_a_lattice() {
    // corrects → detects (every policy that corrects must detect)
    for p in [
        DriftPolicy::Disabled,
        DriftPolicy::Warn,
        DriftPolicy::Enabled {
            ignore_paths: vec![],
        },
    ] {
        if p.corrects() {
            assert!(
                p.detects(),
                "{p:?} corrects but doesn't detect — invariant broken"
            );
        }
    }
}

#[test]
fn disabled_ignores_every_path() {
    let p = DriftPolicy::Disabled;
    assert!(p.should_ignore_path("/spec/replicas"));
    assert!(p.should_ignore_path("/metadata/labels"));
    assert!(p.should_ignore_path("/anything"));
}

#[test]
fn warn_ignores_no_path() {
    // Warn detects everything — there's no ignore-list at this
    // mode (operator hasn't opted in to corrections so there's
    // nothing to opt back out of).
    let p = DriftPolicy::Warn;
    assert!(!p.should_ignore_path("/spec/replicas"));
    assert!(!p.should_ignore_path("/status"));
}

#[test]
fn enabled_respects_ignore_paths() {
    let p = DriftPolicy::Enabled {
        ignore_paths: vec!["/spec/replicas".into(), "/status".into()],
    };
    assert!(p.should_ignore_path("/spec/replicas"));
    assert!(p.should_ignore_path("/status"));
    assert!(!p.should_ignore_path("/spec/template"));
    assert!(!p.should_ignore_path("/metadata/labels"));
}

#[test]
fn enabled_with_empty_ignore_corrects_everything() {
    let p = DriftPolicy::Enabled {
        ignore_paths: vec![],
    };
    assert!(p.corrects());
    assert!(!p.should_ignore_path("/spec/replicas"));
}

#[test]
fn mode_is_stable_discriminant() {
    assert_eq!(DriftPolicy::Disabled.mode(), "disabled");
    assert_eq!(DriftPolicy::Warn.mode(), "warn");
    assert_eq!(
        DriftPolicy::Enabled {
            ignore_paths: vec![]
        }
        .mode(),
        "enabled"
    );
}
