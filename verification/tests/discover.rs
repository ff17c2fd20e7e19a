use magma::discover::{
    classify_discovered, emit_adoption_config, find_undeclared, DiscoverError, Discoverable,
    DiscoveredResource, StaticDiscoverable,
};
use magma::json::Json;

fn s(x: &str) -> Json {
    Json::string(x)
}

fn n(x: i64) -> Json {
    Json::integer(x)
}

fn obj(members: Vec<(&str, Json)>) -> Json {
    Json::object(members.into_iter().map(|(k, v)| (k.to_string(), v)).collect())
}

fn dig(v: &Json, path: &[&str]) -> Json {
    let mut here = v.clone();
    for step in path {
        let next = match step.parse::<usize>() {
            Ok(i) => here.at(i).cloned(),
            Err(_) => here.get(step).cloned(),
        };
        here = next.unwrap();
    }
    here
}

fn mk(kind: &str, addr: &str, current: Json) -> DiscoveredResource {
    DiscoveredResource {
        kind: kind.into(),
        address: addr.into(),
        current,
    }
}

#[test]
fn discover_returns_static_list() {
    let resources = vec![
        mk("inmemory_kv", "kv.a", n(1)),
        mk("inmemory_kv", "kv.b", s("x")),
    ];
    let d = StaticDiscoverable::new("inmemory_kv", resources.clone());
    let got = d.discover().unwrap();
    assert_eq!(got, resources);
}

#[test]
fn classify_partitions_managed_and_undeclared() {
    let discovered = vec![
        mk("k", "a", n(1)),
        mk("k", "b", n(2)),
        mk("k", "c", n(3)),
    ];
    let declared: Vec<String> = ["a", "c"].iter().map(|s| s.to_string()).collect();
    let result = classify_discovered(&discovered, &declared);
    assert_eq!(result.managed.len(), 2);
    assert_eq!(result.undeclared.len(), 1);
    assert_eq!(result.undeclared[0].address, "b");
}

#[test]
fn classify_handles_empty_inputs() {
    let empty: Vec<DiscoveredResource> = vec![];
    let declared: Vec<String> = Vec::new();
    let result = classify_discovered(&empty, &declared);
    assert!(result.is_empty());
    assert_eq!(result.total(), 0);
}

#[test]
fn classify_handles_all_declared() {
    let discovered = vec![mk("k", "a", n(1)), mk("k", "b", n(2))];
    let declared: Vec<String> = ["a", "b"].iter().map(|s| s.to_string()).collect();
    let result = classify_discovered(&discovered, &declared);
    assert_eq!(result.undeclared.len(), 0);
    assert_eq!(result.managed.len(), 2);
}

#[test]
fn classify_handles_all_undeclared() {
    let discovered = vec![mk("k", "a", n(1)), mk("k", "b", n(2))];
    let declared = Vec::new();
    let result = classify_discovered(&discovered, &declared);
    assert_eq!(result.undeclared.len(), 2);
    assert_eq!(result.managed.len(), 0);
}

#[test]
fn find_undeclared_filters_correctly() {
    let resources = vec![
        mk("k", "x", n(1)),
        mk("k", "y", n(2)),
        mk("k", "z", n(3)),
    ];
    let declared: Vec<String> = ["y"].iter().map(|s| s.to_string()).collect();
    let undeclared = find_undeclared(&resources, &declared);
    let addrs: Vec<&str> = undeclared.iter().map(|r| r.address.as_str()).collect();
    assert_eq!(addrs, vec!["x", "z"]);
}

#[test]
fn emit_adoption_config_maps_address_to_attrs() {
    let resources = vec![
        mk("k", "alpha", obj(vec![("name", s("alpha"))])),
        mk("k", "beta",  obj(vec![("name", s("beta"))])),
    ];
    let cfg = emit_adoption_config(&resources);
    assert_eq!(dig(&cfg, &["alpha", "name"]), s("alpha"));
    assert_eq!(dig(&cfg, &["beta", "name"]), s("beta"));
}

#[test]
fn emit_adoption_config_empty_yields_empty_object() {
    let cfg = emit_adoption_config(&vec![]);
    assert_eq!(cfg, obj(vec![]));
}

#[test]
fn empty_input_yields_empty_classification() {
    let declared = Vec::new();
    let classification = classify_discovered(&vec![], &declared);
    assert_eq!(classification.total(), 0);
    assert!(classification.is_empty());
    let undecl = find_undeclared(&vec![], &declared);
    assert!(undecl.is_empty());
    let cfg = emit_adoption_config(&vec![]);
    assert_eq!((match &cfg {
        Json::Object(m) => m.len(),
        other => panic!("expected an object, got {other:?}"),
    }), 0);
}

#[test]
fn equal_addresses_keep_their_order() {
    let found = vec![mk("k", "b", n(1)), mk("k", "a", n(2)), mk("k", "b", n(3)), mk("k", "a", n(4))];
    let r = classify_discovered(&found, &vec![]);
    let listed: Vec<(String, Json)> =
        r.undeclared.iter().map(|x| (x.address.clone(), x.current.clone())).collect();
    assert_eq!(
        listed,
        vec![
            ("a".to_string(), n(2)),
            ("a".to_string(), n(4)),
            ("b".to_string(), n(1)),
            ("b".to_string(), n(3)),
        ]
    );
    assert_eq!(find_undeclared(&found, &vec![]).len(), 4);
    let cfg = emit_adoption_config(&found);
    assert_eq!(dig(&cfg, &["a"]), n(4));
    assert_eq!(dig(&cfg, &["b"]), n(3));
}

#[test]
fn discover_errors_say_what_failed() {
    assert_eq!(DiscoverError::List("boom".into()).message(), "list: boom");
    assert_eq!(DiscoverError::Encode("bad".into()).message(), "encode: bad");
}
