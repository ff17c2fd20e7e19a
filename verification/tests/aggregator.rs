use magma::converge::aggregator::Aggregator;
use magma::converge::health::ReadyState;
use magma::converge::inventory::ResourceRef;
use magma::converge::outcome::OutcomeLattice;

#[test]
fn empty_is_empty() {
    let agg: Aggregator<u32, &str> = Aggregator::new();
    assert!(agg.is_empty());
    assert_eq!(agg.len(), 0);
    assert!(agg.iter().iter().next().is_none());
}

#[test]
fn default_is_empty() {
    let agg: Aggregator<u32, &str> = Aggregator::default();
    assert!(agg.is_empty());
}

#[test]
fn set_and_get() {
    let mut agg = Aggregator::<u32, &str>::new();
    agg.set(7, "seven");
    assert_eq!(agg.get(&7), Some(&"seven"));
    assert_eq!(agg.get(&8), None);
}

#[test]
fn set_overwrites_existing() {
    let mut agg = Aggregator::<u32, &str>::new();
    agg.set(7, "a");
    agg.set(7, "b");
    assert_eq!(agg.len(), 1);
    assert_eq!(agg.get(&7), Some(&"b"));
}

#[test]
fn iter_is_canonical_order_regardless_of_insertion() {
    let mut a = Aggregator::<u32, &str>::new();
    a.set(3, "c");
    a.set(1, "a");
    a.set(2, "b");

    let mut b = Aggregator::<u32, &str>::new();
    b.set(2, "b");
    b.set(3, "c");
    b.set(1, "a");

    let ordered_a: Vec<_> = a.iter().iter().map(|(k, v)| (k, v)).collect();
    let ordered_b: Vec<_> = b.iter().iter().map(|(k, v)| (k, v)).collect();
    assert_eq!(ordered_a, ordered_b);
    assert_eq!(ordered_a, vec![(&1, &"a"), (&2, &"b"), (&3, &"c")],);
}

#[test]
fn retain_drops_by_predicate() {
    let mut agg = Aggregator::<u32, &str>::new();
    agg.set(1, "a");
    agg.set(2, "b");
    agg.set(3, "c");
    agg.retain(|k, _| *k != 2);
    assert_eq!(agg.len(), 2);
    assert_eq!(agg.get(&1), Some(&"a"));
    assert_eq!(agg.get(&2), None);
    assert_eq!(agg.get(&3), Some(&"c"));
}

#[test]
fn overall_empty_returns_baseline() {
    let agg: Aggregator<u32, ReadyState> = Aggregator::new();
    assert_eq!(agg.overall(), ReadyState::baseline());
}

#[test]
fn overall_returns_worst() {
    let mut agg = Aggregator::<u32, ReadyState>::new();
    agg.set(1, ReadyState::Ready);
    agg.set(
        2,
        ReadyState::InProgress {
            reason: "deploying".into(),
        },
    );
    agg.set(
        3,
        ReadyState::Failed {
            reason: "crash".into(),
        },
    );
    assert!(matches!(agg.overall(), ReadyState::Failed { .. }));
}

#[test]
fn overall_all_ready_is_ready() {
    let mut agg = Aggregator::<u32, ReadyState>::new();
    agg.set(1, ReadyState::Ready);
    agg.set(2, ReadyState::Ready);
    assert_eq!(agg.overall(), ReadyState::Ready);
}

#[test]
fn from_iter_builds_aggregator() {
    let agg: Aggregator<u32, &str> = Aggregator::from_iter(vec![(2, "b"), (1, "a"), (3, "c")]);
    let canon: Vec<_> = agg.iter().iter().map(|(k, v)| (k, v)).collect();
    assert_eq!(canon, vec![(&1, &"a"), (&2, &"b"), (&3, &"c")]);
}

#[test]
fn from_iter_duplicate_keys_last_wins() {
    let agg: Aggregator<u32, &str> = Aggregator::from_iter(vec![(1, "a"), (1, "b"), (1, "c")]);
    assert_eq!(agg.len(), 1);
    assert_eq!(agg.get(&1), Some(&"c"));
}

#[test]
fn composes_as_healthreport_shape() {
    let mut agg: Aggregator<ResourceRef, ReadyState> = Aggregator::new();
    let d1 = ResourceRef::namespaced("apps", "v1", "Deployment", "ns", "a");
    let d2 = ResourceRef::namespaced("apps", "v1", "Deployment", "ns", "b");
    agg.set(d1.clone(), ReadyState::Ready);
    agg.set(
        d2.clone(),
        ReadyState::InProgress {
            reason: "rollout".into(),
        },
    );
    assert_eq!(agg.len(), 2);
    assert!(matches!(agg.overall(), ReadyState::InProgress { .. }));
}
