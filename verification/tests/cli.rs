use magma::cli::{
    apply_exit_code, apply_summary, banner_lines, capabilities, capture_tf_env,
    check_exit_code, destroy_changes,
    detect_mode, detect_output_mode, failure_report, find_resource, has_changes, is_compat_mode,
    is_lisp, merge_moves, migration_plan, passed_report, pending_text, plan_exit_code,
    plan_summary, read_bindings, report_refresh, split_moves, state_list, Command, InvokeMode,
    OutputMode, RefreshCounts,
};
use magma::fixtures::StateBuilder;
use magma::json::Json;
use magma::types::{ResourceAction, ResourceAddress, ResourceChange, ResourceKind};

fn s(x: &str) -> Json {
    Json::string(x)
}

fn n(x: i64) -> Json {
    Json::integer(x)
}

fn obj(members: Vec<(&str, Json)>) -> Json {
    Json::object(members.into_iter().map(|(k, v)| (k.to_string(), v)).collect())
}

fn pairs(ps: &[(&str, &str)]) -> Vec<(String, String)> {
    ps.iter().map(|(k, v)| (k.to_string(), v.to_string())).collect()
}

#[test]
fn detect_mode_via_env_override() {
    assert_eq!(detect_mode("magma", Some("terraform")), InvokeMode::TerraformCompat);
    assert_eq!(detect_mode("magma", Some("tofu")), InvokeMode::OpenTofuCompat);
    assert_eq!(detect_mode("terraform", Some("magma")), InvokeMode::MagmaNative);
}

#[test]
fn is_compat_mode_basic() {
    assert!(is_compat_mode(InvokeMode::TerraformCompat));
    assert!(is_compat_mode(InvokeMode::OpenTofuCompat));
    assert!(!is_compat_mode(InvokeMode::MagmaNative));
}

#[test]
fn the_name_decides_the_mode() {
    assert_eq!(detect_mode("terraform", None), InvokeMode::TerraformCompat);
    assert_eq!(detect_mode("Terraform-1.5.EXE", None), InvokeMode::TerraformCompat);
    assert_eq!(detect_mode("TOFU", None), InvokeMode::OpenTofuCompat);
    assert_eq!(detect_mode("my-terraform", None), InvokeMode::MagmaNative);
    assert_eq!(detect_mode("", None), InvokeMode::MagmaNative);
}

#[test]
fn output_is_plain_unless_asked() {
    let m = InvokeMode::MagmaNative;
    assert_eq!(detect_output_mode(m, Some("native")), OutputMode::MagmaNative);
    assert_eq!(detect_output_mode(m, Some("terraform")), OutputMode::TerraformPlain);
    assert_eq!(detect_output_mode(m, Some("plain")), OutputMode::TerraformPlain);
    assert_eq!(detect_output_mode(m, Some("other")), OutputMode::TerraformPlain);
    assert_eq!(detect_output_mode(InvokeMode::TerraformCompat, None), OutputMode::TerraformPlain);
}

#[test]
fn the_environment_is_read() {
    let e = capture_tf_env(&pairs(&[
        ("PATH", "/bin"),
        ("TF_DATA_DIR", "/data"),
        ("TF_LOG", "TRACE"),
        ("TF_LOG_PATH", "/log"),
        ("TF_INPUT", "No"),
        ("TF_IN_AUTOMATION", "1"),
        ("TF_WORKSPACE", "prod"),
        ("TF_PLUGIN_CACHE_DIR", "/cache"),
        ("TF_VAR_Region", "us-east-1"),
        ("TF_VAR_region", "eu-west-1"),
        ("TF_TOKEN_app_Host", "t"),
        ("TF_CLI_ARGS_PLAN", "-lock=false"),
    ]));
    assert_eq!(e.data_dir.as_deref(), Some("/data"));
    assert_eq!(e.log_level.as_deref(), Some("TRACE"));
    assert_eq!(e.log_path.as_deref(), Some("/log"));
    assert!(!e.input_enabled);
    assert!(e.in_automation);
    assert_eq!(e.workspace.as_deref(), Some("prod"));
    assert_eq!(e.plugin_cache_dir.as_deref(), Some("/cache"));
    assert_eq!(e.vars.len(), 1);
    assert_eq!(e.vars.get("region").map(|v| v.as_str()), Some("eu-west-1"));
    assert_eq!(e.registry_tokens.get("app_Host").map(|v| v.as_str()), Some("t"));
    assert_eq!(e.cli_args.get("plan").map(|v| v.as_str()), Some("-lock=false"));
}

#[test]
fn an_empty_environment_leaves_input_on() {
    let e = capture_tf_env(&vec![]);
    assert!(e.input_enabled);
    assert!(!e.in_automation);
    assert!(e.vars.is_empty());
    let quiet = capture_tf_env(&pairs(&[("TF_INPUT", "FALSE"), ("TF_IN_AUTOMATION", "")]));
    assert!(!quiet.input_enabled);
    assert!(!quiet.in_automation);
    let zero = capture_tf_env(&pairs(&[("TF_INPUT", "0"), ("TF_INPUT", "yes")]));
    assert!(zero.input_enabled);
}

#[test]
fn bindings_keep_the_order_of_their_keys() {
    let given = vec!["b=1".to_string(), "a=2".to_string(), "b=3=4".to_string(), "c=".to_string()];
    let m = read_bindings(&given).unwrap();
    let listed: Vec<(&str, &str)> = m.iter().map(|(k, v)| (k.as_str(), v.as_str())).collect();
    assert_eq!(listed, vec![("b", "3=4"), ("a", "2"), ("c", "")]);
    let bad = vec!["a=1".to_string(), "nothing".to_string()];
    assert_eq!(
        read_bindings(&bad).unwrap_err(),
        "--tlisp-binding must be KEY=VALUE: `nothing`"
    );
    assert!(read_bindings(&vec![]).unwrap().is_empty());
}

#[test]
fn commands_know_whether_they_do_anything() {
    assert_eq!(Command::Import.pending(), Some("import"));
    assert_eq!(Command::StateReplaceProvider.pending(), Some("state replace-provider"));
    assert_eq!(Command::WorkspaceNew.pending(), Some("workspace new"));
    assert_eq!(Command::AttestVerify.pending(), Some("attest verify"));
    assert_eq!(Command::Plan.pending(), None);
    assert_eq!(Command::Fmt.pending(), None);
    assert_eq!(pending_text("import", None), "magma import: not yet implemented (M0 in flight)");
    assert_eq!(
        pending_text("import", Some("docs/next.md §2")),
        "magma import: not yet implemented (M0 in flight — see docs/next.md §2)"
    );
}

#[test]
fn the_banner_follows_the_mode() {
    assert_eq!(
        banner_lines(InvokeMode::TerraformCompat, "0.1.0", None),
        vec!["Terraform v1.5-compat (magma 0.1.0)", "Run `terraform --help` for usage."]
    );
    assert_eq!(
        banner_lines(InvokeMode::OpenTofuCompat, "0.1.0", None)[0],
        "OpenTofu v1.7-compat (magma 0.1.0)"
    );
    assert!(banner_lines(InvokeMode::MagmaNative, "0.1.0", None)[0].starts_with("magma 0.1.0"));
}

#[test]
fn lisp_is_told_by_the_extension() {
    assert!(is_lisp(Some("lisp")));
    assert!(is_lisp(Some("tatara")));
    assert!(is_lisp(Some("scm")));
    assert!(!is_lisp(Some("json")));
    assert!(!is_lisp(None));
}

fn one(action: ResourceAction) -> ResourceChange {
    ResourceChange {
        address: ResourceAddress::root(
            ResourceKind::Managed,
            "aws_vpc".to_string(),
            "net".to_string(),
        ),
        action,
        before: None,
        after: None,
    }
}

#[test]
fn reading_is_no_change() {
    let quiet = vec![one(ResourceAction::NoOp), one(ResourceAction::Read)];
    assert!(!has_changes(&quiet));
    assert_eq!(plan_exit_code(&quiet, true), 0);
    let busy = vec![one(ResourceAction::NoOp), one(ResourceAction::Forget)];
    assert!(has_changes(&busy));
    assert_eq!(plan_exit_code(&busy, true), 2);
    assert_eq!(plan_exit_code(&busy, false), 0);
    assert_eq!(apply_exit_code(0), 0);
    assert_eq!(apply_exit_code(3), 1);
}

#[test]
fn summaries_show_the_plan_in_hexadecimal() {
    let id = [0xabu8; 32];
    let p = plan_summary(&id, s("t"), vec![n(1), n(2)], Json::Null, s("clean"));
    assert_eq!(p.get("plan_id"), Some(&Json::String("ab".repeat(32))));
    assert_eq!(p.get("resource_changes"), Some(&n(2)));
    assert_eq!(p.get("changes"), Some(&Json::Array(vec![n(1), n(2)])));
    assert_eq!(p.get("verdict"), Some(&s("clean")));
    assert_eq!(p.get("observation"), Some(&Json::Null));
    let a = apply_summary(&id, 3, 1, s("t0"), s("t1"));
    assert_eq!(
        a.text(),
        format!(
            r#"{{"applied":3,"failed":1,"finished_at":"t1","plan_id":"{}","started_at":"t0"}}"#,
            "ab".repeat(32)
        )
    );
}

fn counts() -> RefreshCounts {
    RefreshCounts {
        refreshed: 0,
        dropped_instances: 0,
        dropped_resources: 0,
        suppressed_mass_drop: 0,
        kept_on_error: 0,
        probed: 5,
    }
}

#[test]
fn a_clean_refresh_is_silent() {
    assert!(report_refresh(counts(), "full", true).is_empty());
}

#[test]
fn a_blind_refresh_is_loud() {
    let c = RefreshCounts { kept_on_error: 5, ..counts() };
    let lines = report_refresh(c, "blind", false);
    assert_eq!(lines.len(), 1);
    assert!(lines[0].starts_with(
        "magma: plan-time refresh is blind — 5 of 5 state instance(s) could not be read"
    ));
}

#[test]
fn a_refresh_tells_what_changed() {
    let c = RefreshCounts {
        refreshed: 2,
        dropped_instances: 3,
        dropped_resources: 1,
        suppressed_mass_drop: 4,
        ..counts()
    };
    assert_eq!(
        report_refresh(c, "full", true),
        vec![
            "magma: plan-time refresh — 2 instance(s) updated from the real world, 3 confirmed gone (1 resource(s) dropped from state), 4 suppressed as a mass-drop anomaly (systemic read failure, not genuine drift)"
        ]
    );
    assert_eq!(report_refresh(c, "partial", false).len(), 2);
}

#[test]
fn destroying_deletes_every_resource() {
    let mut state = StateBuilder::new()
        .resource("aws_vpc", "net", obj(vec![("id", s("vpc-1"))]))
        .resource("aws_iam_role", "r", obj(vec![]))
        .build();
    state.resources[1].instances.clear();
    let cs = destroy_changes(&state);
    assert_eq!(cs.len(), 2);
    assert_eq!(cs[0].address.type_id.0, "aws_vpc");
    assert_eq!(cs[0].address.name, "net");
    assert_eq!(cs[0].action, ResourceAction::Delete);
    assert_eq!(cs[0].before, Some(obj(vec![("id", s("vpc-1"))])));
    assert_eq!(cs[0].after, None);
    assert_eq!(cs[1].before, None);
}

#[test]
fn states_are_listed_and_searched() {
    let mut state = StateBuilder::new()
        .resource("aws_vpc", "net", obj(vec![]))
        .resource("aws_subnet", "a", obj(vec![]))
        .build();
    state.resources[1].address.key = Some("Int(0)".to_string());
    assert_eq!(state_list(&state), vec!["aws_vpc.net", "aws_subnet.a [Int(0)]"]);
    assert_eq!(find_resource(&state, "aws_subnet.a"), Some(1));
    assert_eq!(find_resource(&state, "aws_subnet.b"), None);
}

#[test]
fn splitting_needs_a_resource() {
    assert_eq!(
        split_moves(&vec![]).unwrap_err(),
        "magma split: at least one --resource is required"
    );
    let ms = split_moves(&vec!["a.b".to_string(), "c.d".to_string()]).unwrap();
    assert_eq!(ms.len(), 2);
    assert_eq!(ms[1].source_address, "c.d");
    assert_eq!(ms[1].target_address, "c.d");
    let plan = migration_plan("from", "/f", "to", "/t", ms, true);
    assert_eq!(plan.from.name, "from");
    assert_eq!(plan.from.state_path, "/f");
    assert_eq!(plan.to.name, "to");
    assert_eq!(plan.to.state_path, "/t");
    assert_eq!(plan.moves.len(), 2);
    assert!(plan.dry_run);
}

#[test]
fn merging_moves_every_resource() {
    let state = Json::parse(
        r#"{"resources":[{"type":"aws_vpc","name":"net"},{"type":"aws_iam_role","name":"r"}]}"#,
    )
    .unwrap();
    let ms = merge_moves(&state).unwrap();
    assert_eq!(ms.len(), 2);
    assert_eq!(ms[0].source_address, "aws_vpc.net");
    assert_eq!(ms[1].target_address, "aws_iam_role.r");
    let none = Json::parse(r#"{"resources":{}}"#).unwrap();
    assert_eq!(merge_moves(&none).unwrap_err(), "source state has no resources array");
    let untyped = Json::parse(r#"{"resources":[{"name":"x"}]}"#).unwrap();
    assert_eq!(merge_moves(&untyped).unwrap_err(), "resource missing `type`");
    let unnamed = Json::parse(r#"{"resources":[{"type":"t","name":1}]}"#).unwrap();
    assert_eq!(merge_moves(&unnamed).unwrap_err(), "resource missing `name`");
}

#[test]
fn reports_name_what_failed() {
    assert_eq!(
        failure_report("path", "/ws", "violated", "boom").text(),
        r#"{"error":"boom","path":"/ws","status":"violated"}"#
    );
    assert_eq!(
        passed_report("/ws", n(1)).text(),
        r#"{"laws":["architecture::assert_all_laws","workspace::assert_all_laws"],"path":"/ws","report":1,"status":"passed"}"#
    );
}

#[test]
fn capabilities_are_listed() {
    let c = capabilities("0.1.0", &vec!["plan".to_string(), "apply".to_string()]);
    assert_eq!(c.get("tool"), Some(&s("magma")));
    assert_eq!(c.get("version"), Some(&s("0.1.0")));
    assert_eq!(c.get("schema_version"), Some(&n(1)));
    assert_eq!(c.get("mcp_tools"), Some(&Json::Array(vec![s("plan"), s("apply")])));
    let mcp = c.get("interfaces").unwrap().get("mcp").unwrap();
    assert_eq!(mcp.get("tools"), Some(&n(2)));
    assert_eq!(c.get("subcommands").unwrap().at(22), Some(&s("capabilities")));
    assert_eq!(c.get("subcommands").unwrap().at(23), None);
    assert_eq!(c.get("env_vars_honored").unwrap().at(11), Some(&s("MAGMA_INVOKE_AS")));
    let codes = c.get("exit_codes").unwrap();
    assert_eq!(codes.get("2"), Some(&s("plan: changes pending (-detailed-exitcode)")));
}

#[test]
fn a_check_that_cannot_be_made_fails() {
    assert_eq!(check_exit_code(&Ok(0)), 0);
    assert_eq!(check_exit_code(&Ok(2)), 1);
    assert_eq!(check_exit_code(&Err("no such directory".to_string())), 1);
}

#[test]
fn the_native_banner_may_point_on() {
    assert_eq!(
        banner_lines(InvokeMode::MagmaNative, "0.1.0", None)[1],
        "See `magma --help`."
    );
    assert_eq!(
        banner_lines(InvokeMode::MagmaNative, "0.1.0", Some("docs/guide.md for the rest"))[1],
        "See `magma --help` and docs/guide.md for the rest."
    );
}
