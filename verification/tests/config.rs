use magma::config::meta::split_resource_body;
use magma::config::resolve::{
    has_interpolation, resolve_config, resolve_reference, resolve_string, state_resolution_map,
};
use magma::config::{Config, ConfigError};
use magma::json::Json;
use magma::ordmap::StrMap;
use magma::types::{
    InstanceStatus, ModulePath, ProviderInstance, ProviderReference, ResourceAddress, ResourceKind,
    ResourceTypeId, State, StateInstance, StateResource,
};

fn s(x: &str) -> Json {
    Json::string(x)
}

fn n(x: i64) -> Json {
    Json::integer(x)
}

fn obj(members: Vec<(&str, Json)>) -> Json {
    Json::object(members.into_iter().map(|(k, v)| (k.to_string(), v)).collect())
}

fn arr(xs: Vec<Json>) -> Json {
    Json::Array(xs)
}

fn dig(v: &Json, path: &[&str]) -> Json {
    let mut here = v.clone();
    for step in path {
        let next = match step.parse::<usize>() {
            Ok(i) => here.at(i).cloned(),
            Err(_) => here.get(step).cloned(),
        };
        here = next.unwrap();
    }
    here
}

#[test]
fn a_declared_provider_is_carried_as_meta_not_handed_to_the_provider() {
    let (meta, attrs) = split_resource_body(
        "aws_instance.web",
        &obj(vec![("provider", s("aws")), ("ami", s("ami-123"))]),
    )
    .expect("a bare provider name is honourable");
    assert_eq!(
        meta.provider.as_ref().map(ProviderInstance::name),
        Some("aws")
    );
    // The attribute map handed to the provider must not contain it.
    assert_eq!(attrs, obj(vec![("ami", s("ami-123"))]));
}

#[test]
fn a_resource_pinned_to_an_aliased_provider_is_refused_not_silently_defaulted() {
    let err = split_resource_body(
        "aws_instance.web",
        &obj(vec![("provider", s("aws.us_east_2")), ("ami", s("ami-123"))]),
    )
    .expect_err("magma cannot dial an aliased provider, so it must refuse");
    let msg = err.message();
    assert!(
        msg.contains("aws_instance.web"),
        "must name the resource: {msg}"
    );
    assert!(
        matches!(err, ConfigError::ProviderMeta { .. }),
        "must be the typed provider-meta refusal, got: {err:?}"
    );
}

#[test]
fn a_declared_depends_on_becomes_typed_addresses_and_leaves_the_attributes() {
    let (meta, attrs) = split_resource_body(
        "aws_instance.web",
        &obj(vec![("depends_on", arr(vec![s("aws_iam_role.exec"), s("data.aws_vpc.main"), s("aws_subnet.a[0]")])), ("ami", s("ami-123"))]),
    )
    .expect("depends_on is implemented");
    let got: Vec<String> = meta.depends_on.iter().map(ResourceAddress::text).collect();
    assert_eq!(
        got,
        vec!["aws_iam_role.exec", "data.aws_vpc.main", "aws_subnet.a"],
        "an index suffix targets the resource, matching how interpolation edges key",
    );
    assert_eq!(attrs, obj(vec![("ami", s("ami-123"))]));
}

#[test]
fn a_depends_on_naming_a_module_is_refused_because_magma_cannot_order_against_one() {
    let err = split_resource_body(
        "aws_instance.web",
        &obj(vec![("depends_on", arr(vec![s("module.networking")]))]),
    )
    .expect_err("magma does not expand modules, so it cannot honour the ordering");
    assert!(err.message().contains("module"), "got: {err:?}");
}

#[test]
fn a_malformed_depends_on_is_refused_rather_than_ignored() {
    for body in [
        obj(vec![("depends_on", s("aws_iam_role.exec"))]), // not a list
        obj(vec![("depends_on", arr(vec![n(42)]))]),                // not a string
        obj(vec![("depends_on", arr(vec![s("not_an_address")]))]),  // no `.name`
        obj(vec![("depends_on", arr(vec![s("a.b.c")]))]),           // too many segments
    ] {
        assert!(
            split_resource_body("aws_instance.web", &body).is_err(),
            "a depends_on magma cannot parse must never be silently dropped: {body:?}"
        );
    }
}

#[test]
fn a_recognised_but_unimplemented_meta_argument_is_refused_never_ignored() {
    for key in [
        "count",
        "for_each",
        "lifecycle",
        "provisioner",
        "connection",
    ] {
        let body = obj(vec![(key, obj(vec![])), ("ami", s("ami-123"))]);
        let Err(err) = split_resource_body("aws_instance.web", &body) else {
            panic!("`{key}` must be refused, not silently dropped from the attributes");
        };
        assert!(
            matches!(err, ConfigError::UnimplementedMeta { key: k, .. } if k == key),
            "`{key}` must be the typed unimplemented-meta refusal, got: {err:?}"
        );
        // The message must state what ignoring it would have done.
        assert!(
            err.message().contains("Ignoring it would"),
            "the refusal must name the consequence, got: {err:?}"
        );
    }
}

#[test]
fn a_block_with_no_meta_arguments_passes_through_untouched() {
    let body = obj(vec![("ami", s("ami-123")), ("tags", obj(vec![("Name", s("web"))]))]);
    let (meta, attrs) =
        split_resource_body("aws_instance.web", &body).expect("no meta, no refusal");
    assert!(meta.is_empty());
    assert_eq!(attrs, body);
}

#[test]
fn parse_minimal_terraform_json() {
    let v = obj(vec![("terraform", obj(vec![("required_providers", obj(vec![("aws", obj(vec![("source", s("hashicorp/aws")), ("version", s("~> 5.0"))]))]))])), ("resource", obj(vec![("aws_vpc", obj(vec![("main", obj(vec![("cidr_block", s("10.0.0.0/16"))]))]))]))]);
    let cfg = Config::from_json(v).unwrap();
    assert_eq!(cfg.terraform.required_providers.len(), 1);
    assert_eq!(cfg.resources.len(), 1);
    let addrs: Vec<_> = cfg.resource_addresses();
    assert_eq!(addrs.len(), 1);
    assert_eq!(addrs[0].type_id.0, "aws_vpc");
    assert_eq!(addrs[0].name, "main");
}

#[test]
fn provider_references_collected() {
    let v = obj(vec![("terraform", obj(vec![("required_providers", obj(vec![("aws", obj(vec![("source", s("hashicorp/aws"))])), ("cloudflare", obj(vec![("source", s("cloudflare/cloudflare"))]))]))]))]);
    let cfg = Config::from_json(v).unwrap();
    let refs = cfg.provider_references();
    assert_eq!(refs.len(), 2);
    assert!(refs.iter().any(|r| r.source == "hashicorp/aws"));
    assert!(refs.iter().any(|r| r.source == "cloudflare/cloudflare"));
}

#[test]
fn resolve_simple_reference() {
    let mut state = StrMap::new();
    state.insert(
        "aws_vpc".to_string(),
        obj(vec![("main", obj(vec![("id", s("vpc-abc123"))]))]),
    );
    let resolved = resolve_reference("${aws_vpc.main.id}", &state).unwrap();
    assert_eq!(resolved, s("vpc-abc123"));
}

#[test]
fn resolve_unknown_reference_errs() {
    let state = StrMap::new();
    let err = resolve_reference("${aws_vpc.missing.id}", &state).unwrap_err();
    assert!(matches!(err, ConfigError::UnknownReference(_)));
}

#[test]
fn resolve_indexed_data_source_reference() {
    // The exact grammar the Pangea CloudflareTunnel architecture emits
    // (rio-drive): a data-source result navigated by list index. The old
    // impl could not parse `result[0]` and leaked the literal `${...}` to
    // the provider → Cloudflare 400.
    let mut state = StrMap::new();
    state.insert(
        "data".to_string(),
        obj(vec![("cloudflare_zones", obj(vec![("rio_drive_zone", obj(vec![("result", arr(vec![obj(vec![("id", s("zone-abc"))])]))]))])), ("cloudflare_accounts", obj(vec![("rio_drive_account", obj(vec![("result", arr(vec![obj(vec![("id", s("acct-xyz"))])]))]))]))]),
    );
    assert_eq!(
        resolve_reference(
            "${data.cloudflare_zones.rio_drive_zone.result[0].id}",
            &state
        )
        .unwrap(),
        s("zone-abc"),
    );
    assert_eq!(
        resolve_reference(
            "${data.cloudflare_accounts.rio_drive_account.result[0].id}",
            &state
        )
        .unwrap(),
        s("acct-xyz"),
    );
}

#[test]
fn resolve_index_out_of_bounds_errs() {
    let mut state = StrMap::new();
    state.insert(
        "data".to_string(),
        obj(vec![("x", obj(vec![("y", obj(vec![("result", arr(vec![]))]))]))]),
    );
    let err = resolve_reference("${data.x.y.result[0].id}", &state).unwrap_err();
    assert!(matches!(err, ConfigError::UnknownReference(_)));
}

#[test]
fn resolve_managed_resource_id_reference() {
    // The tunnel-config references the tunnel's id (sibling managed
    // resource) — same path machinery, no index.
    let mut state = StrMap::new();
    state.insert(
        "cloudflare_zero_trust_tunnel_cloudflared".to_string(),
        obj(vec![("rio", obj(vec![("id", s("tunnel-123"))]))]),
    );
    assert_eq!(
        resolve_reference("${cloudflare_zero_trust_tunnel_cloudflared.rio.id}", &state)
            .unwrap(),
        s("tunnel-123"),
    );
}

#[test]
fn state_resolution_map_nests_managed_and_data_resources() {
    let mk_addr = |kind: ResourceKind, type_id: &str, name: &str| ResourceAddress {
        module: ModulePath::root(),
        kind,
        type_id: ResourceTypeId(type_id.to_string()),
        name: name.to_string(),
        key: None,
    };
    let mk_instance = |attrs: Json| StateInstance {
        index_key: None,
        schema_version: 0,
        attributes: attrs,
        sensitive_attribute_paths: Vec::new(),
        private: Vec::new(),
        dependencies: Vec::new(),
        status: InstanceStatus::Ready,
    };
    let provider = || ProviderReference {
        source: "hashicorp/aws".into(),
        name: "aws".into(),
        alias: None,
    };

    let state = State {
        version: 4,
        terraform_version: "1.7.0".into(),
        serial: 0,
        lineage: 7,
        outputs: Vec::new(),
        resources: vec![
            StateResource {
                address: mk_addr(ResourceKind::Managed, "aws_vpc", "main"),
                provider: provider(),
                instances: vec![mk_instance(obj(vec![("id", s("vpc-abc123"))]))],
            },
            StateResource {
                address: mk_addr(ResourceKind::Data, "cloudflare_zones", "z"),
                provider: provider(),
                instances: vec![mk_instance(obj(vec![("result", arr(vec![obj(vec![("id", s("zone-abc"))])]))]))],
            },
        ],
    };

    let sm = state_resolution_map(&state);
    assert_eq!(dig(&Json::Object(sm.clone()), &["aws_vpc", "main", "id"]), s("vpc-abc123"));
    assert_eq!(
        dig(&Json::Object(sm.clone()), &["data", "cloudflare_zones", "z", "result", "0", "id"]),
        s("zone-abc")
    );

    // The map is exactly what resolve_reference/resolve_config expect —
    // both grammars must resolve directly against it.
    assert_eq!(
        resolve_reference("${aws_vpc.main.id}", &sm).unwrap(),
        s("vpc-abc123")
    );
    assert_eq!(
        resolve_reference("${data.cloudflare_zones.z.result[0].id}", &sm).unwrap(),
        s("zone-abc")
    );
}

#[test]
fn resolve_config_walks_rio_drive_shaped_resource() {
    // A config shaped like the rio-drive CloudflareTunnel resources: a
    // whole-reference account_id/zone_id (must stay strings), a sibling
    // tunnel-id whole-reference, a nested ingress array (plain strings),
    // and an embedded interpolation in a hostname. resolve_config must
    // produce a fully-concrete config with zero `${...}` left.
    let mut state = StrMap::new();
    state.insert(
        "data".to_string(),
        obj(vec![("cloudflare_accounts", obj(vec![("a", obj(vec![("result", arr(vec![obj(vec![("id", s("acct-xyz"))])]))]))])), ("cloudflare_zones", obj(vec![("z", obj(vec![("result", arr(vec![obj(vec![("id", s("zone-abc"))])]))]))]))]),
    );
    state.insert(
        "cloudflare_zero_trust_tunnel_cloudflared".to_string(),
        obj(vec![("rio", obj(vec![("id", s("tun-1"))]))]),
    );
    let cfg = obj(vec![("account_id", s("${data.cloudflare_accounts.a.result[0].id}")), ("zone_id", s("${data.cloudflare_zones.z.result[0].id}")), ("tunnel_id", s("${cloudflare_zero_trust_tunnel_cloudflared.rio.id}")), ("name", s("tunnel-${cloudflare_zero_trust_tunnel_cloudflared.rio.id}-cfg")), ("ingress", arr(vec![obj(vec![("hostname", s("drive.bristol.quero.cloud"))])]))]);
    let resolved = resolve_config(&cfg, &state).unwrap();
    assert_eq!(dig(&resolved, &["account_id"]), s("acct-xyz"));
    assert_eq!(dig(&resolved, &["zone_id"]), s("zone-abc"));
    assert_eq!(dig(&resolved, &["tunnel_id"]), s("tun-1"));
    assert_eq!(dig(&resolved, &["name"]), s("tunnel-tun-1-cfg")); // embedded substitution
    assert_eq!(
        dig(&resolved, &["ingress", "0", "hostname"]),
        s("drive.bristol.quero.cloud")
    );
    // No interpolation must survive anywhere.
    assert!(!resolved.text().contains("${"));
}

#[test]
fn has_interpolation_false_for_pure_escaped_literal() {
    assert!(!has_interpolation("$${{ secrets.BOT_PAT }}"));
    assert!(!has_interpolation("literal %%{if true}yes%%{endif}"));
}

#[test]
fn has_interpolation_true_when_a_real_reference_sits_alongside_an_escape() {
    assert!(has_interpolation(
        "$${{ secrets.BOT_PAT }} and ${github_repository.izumi.id}"
    ));
}

#[test]
fn resolve_string_unescapes_a_whole_string_escaped_literal_with_no_state_lookup() {
    // No `sm` entry that could possibly resolve `{aws_vpc.x.id}` --
    // if this were (wrongly) treated as a reference, this would error.
    let sm: StrMap<Json> = StrMap::new();
    let resolved = resolve_string("$${aws_vpc.x.id}", &sm).unwrap();
    assert_eq!(resolved, s("${aws_vpc.x.id}"));
}

#[test]
fn resolve_string_resolves_a_real_reference_next_to_an_escaped_github_actions_expr() {
    let mut sm: StrMap<Json> = StrMap::new();
    sm.insert(
        "github_repository".to_string(),
        obj(vec![("izumi", obj(vec![("id", s("R_kgAizumi"))]))]),
    );
    let resolved = resolve_string(
        "$${{ secrets.BOT_PAT }} and ${github_repository.izumi.id}",
        &sm,
    )
    .unwrap();
    assert_eq!(resolved, s("${{ secrets.BOT_PAT }} and R_kgAizumi"));
}

#[test]
fn resolve_config_walks_a_github_repository_file_content_shaped_resource() {
    // The exact shape of the 2026-07-23 incident: a github_repository_file
    // whose `content` carries a real GitHub Actions workflow with a
    // correctly-HCL2-escaped secrets expression. resolve_config must
    // leave it as the correct, single-escaped, valid GHA syntax -- not
    // error, and not leave a stray extra `$`.
    let state: StrMap<Json> = StrMap::new();
    let cfg = obj(vec![("repository", s("pangea-consul")), ("file", s(".github/workflows/auto-bump.yml")), ("content", s("name: auto-bump\njobs:\n  bump:\n    secrets:\n      BOT_PAT: $${{ secrets.BOT_PAT }}\n"))]);
    let resolved = resolve_config(&cfg, &state).unwrap();
    assert_eq!(
        dig(&resolved, &["content"]),
        s("name: auto-bump\njobs:\n  bump:\n    secrets:\n      BOT_PAT: ${{ secrets.BOT_PAT }}\n")
    );
}

#[test]
fn resolve_string_does_not_corrupt_multi_byte_utf8_around_escaped_content() {
    let sm: StrMap<Json> = StrMap::new();
    let resolved =
        resolve_string("caf\u{e9} $${{ secrets.BOT_PAT }} \u{2764}\u{fe0f}", &sm).unwrap();
    assert_eq!(
        resolved,
        s("caf\u{e9} ${{ secrets.BOT_PAT }} \u{2764}\u{fe0f}")
    );
}

fn small_state() -> StrMap<Json> {
    let mut state = StrMap::new();
    state.insert(
        "a".to_string(),
        obj(vec![("b", obj(vec![("id", s("v")), ("xs", arr(vec![n(1), n(2)]))]))]),
    );
    state
}

#[test]
fn an_index_that_is_no_number_leads_nowhere() {
    let mut state = StrMap::new();
    state.insert("a".to_string(), obj(vec![("b", arr(vec![n(1)]))]));
    for bad in ["${a.b[x]}", "${a.b[]}", "${a.b[0}", "${a.b[0][1]}", "${a[x].b}"] {
        match resolve_reference(bad, &state) {
            Err(ConfigError::UnknownReference(r)) => assert_eq!(r, bad),
            other => panic!("{bad}: {other:?}"),
        }
    }
    assert_eq!(resolve_reference("${a.b[0]}", &state).unwrap(), n(1));
    assert_eq!(resolve_reference("${a.b[ 0 ]}", &state).unwrap(), n(1));
}

#[test]
fn text_around_a_reference_makes_a_mixed_string() {
    let state = small_state();
    assert_eq!(resolve_string("${a.b.id} $${x}", &state).unwrap(), s("v ${x}"));
    assert_eq!(resolve_string("${a.b.id} foo}", &state).unwrap(), s("v foo}"));
    assert_eq!(resolve_string("${a.b.id}}", &state).unwrap(), s("v}"));
    assert_eq!(resolve_string(" ${a.b.xs} ", &state).unwrap(), arr(vec![n(1), n(2)]));
    assert_eq!(resolve_string("${a.b.xs}}", &state).unwrap(), s("[1,2]}"));
}

#[test]
fn an_index_may_hold_dots() {
    let of = |entry: &str| {
        split_resource_body("t.n", &obj(vec![("depends_on", arr(vec![s(entry)]))]))
            .map(|(meta, _)| meta.depends_on[0].text())
    };
    assert_eq!(of("aws_instance.web[\"a.b\"]").unwrap(), "aws_instance.web");
    assert_eq!(of("data.aws_vpc.main[\"x]y\"]").unwrap(), "data.aws_vpc.main");
    assert_eq!(of("aws_instance.web[0]").unwrap(), "aws_instance.web");
    assert!(of("aws_instance.web[0].id").is_err());
    assert!(of("aws_instance.web[\"a\"].id[\"b\"]").is_err());
    assert!(of("aws_instance[\"a.b\"]").is_err());
}

#[test]
fn what_is_wrong_with_a_workspace_is_told() {
    let wrong = |v: Json| match Config::from_json(v) {
        Err(ConfigError::Serde(m)) => m,
        other => panic!("{other:?}"),
    };
    assert_eq!(wrong(s("x")), "invalid type: string \"x\", expected struct Config");
    assert_eq!(
        wrong(obj(vec![("resource", n(5))])),
        "invalid type: integer `5`, expected a map"
    );
    assert_eq!(
        wrong(obj(vec![("data", obj(vec![("t", Json::Null)]))])),
        "invalid type: null, expected a map"
    );
    assert_eq!(
        wrong(obj(vec![("provider", obj(vec![("aws", arr(vec![]))]))])),
        "invalid type: sequence, expected struct ProviderConfig"
    );
    assert_eq!(
        wrong(obj(vec![("output", obj(vec![("o", obj(vec![]))]))])),
        "missing field `value`"
    );
    assert_eq!(
        wrong(obj(vec![("output", obj(vec![("o", obj(vec![("value", n(1)), ("sensitive", n(1))]))]))])),
        "invalid type: integer `1`, expected a boolean"
    );
    assert_eq!(
        wrong(obj(vec![("output", obj(vec![("o", arr(vec![]))]))])),
        "invalid length 0, expected struct OutputDecl with 3 elements"
    );
    let asks = |p: Json| obj(vec![("terraform", obj(vec![("required_providers", obj(vec![("aws", p)]))]))]);
    assert_eq!(wrong(asks(obj(vec![]))), "missing field `source`");
    assert_eq!(
        wrong(asks(Json::Bool(true))),
        "invalid type: boolean `true`, expected struct RequiredProvider"
    );
    assert_eq!(
        wrong(obj(vec![("terraform", Json::Null)])),
        "invalid type: null, expected struct TerraformBlock"
    );
    assert_eq!(
        wrong(obj(vec![("terraform", obj(vec![("required_version", n(1))]))])),
        "invalid type: integer `1`, expected a string"
    );
    let many = (0..7).map(|_| obj(vec![])).collect();
    assert_eq!(wrong(arr(many)), "invalid length 7, expected fewer elements in array");
    // The first fault in the order of the keys.
    assert_eq!(
        wrong(obj(vec![("terraform", Json::Null), ("module", n(1))])),
        "invalid type: integer `1`, expected a map"
    );
    assert!(Config::from_json(arr(vec![])).unwrap().resources.is_empty());
}

#[test]
fn addresses_are_written_with_module_and_key() {
    let a = ResourceAddress {
        module: ModulePath { steps: vec!["net".into(), "core".into()] },
        kind: ResourceKind::Data,
        type_id: ResourceTypeId("aws_vpc".into()),
        name: "main".into(),
        key: Some("0".into()),
    };
    assert_eq!(a.text(), "module.net.module.core.data.aws_vpc.main[0]");
}
