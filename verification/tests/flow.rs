use magma::config::Config;
use magma::flow::{
    topological_order, FlowEdge, FlowError, FlowFile, FlowRun, FlowWorkspace, Step,
};
use magma::json::Json;

fn s(x: &str) -> Json {
    Json::string(x)
}

fn obj(members: Vec<(&str, Json)>) -> Json {
    Json::object(members.into_iter().map(|(k, v)| (k.to_string(), v)).collect())
}

fn ws(name: &str, dir: &str) -> FlowWorkspace {
    FlowWorkspace {
        name: name.into(),
        dir: dir.into(),
    }
}

fn edge(from: &str, from_out: &str, to: &str, to_in: &str) -> FlowEdge {
    FlowEdge {
        from: from.into(),
        from_output: from_out.into(),
        to: to.into(),
        to_input: to_in.into(),
    }
}

#[test]
fn topological_order_linear_chain() {
    let flow = FlowFile {
        workspaces: vec![ws("a", "/a"), ws("b", "/b"), ws("c", "/c")],
        edges:      vec![edge("a", "x", "b", "x"), edge("b", "y", "c", "y")],
        optimization: None,
    };
    let order = topological_order(&flow).unwrap();
    assert_eq!(order, vec!["a", "b", "c"]);
}

#[test]
fn topological_order_preserves_declaration_order_among_roots() {
    let flow = FlowFile {
        workspaces: vec![ws("first", "/f"), ws("second", "/s"), ws("third", "/t")],
        edges:      vec![],
        optimization: None,
    };
    let order = topological_order(&flow).unwrap();
    assert_eq!(order, vec!["first", "second", "third"]);
}

#[test]
fn topological_order_detects_cycle() {
    let flow = FlowFile {
        workspaces: vec![ws("a", "/a"), ws("b", "/b")],
        edges:      vec![edge("a", "x", "b", "x"), edge("b", "y", "a", "y")],
        optimization: None,
    };
    match topological_order(&flow) {
        Err(FlowError::Cycle(_)) => {}
        other => panic!("expected Cycle, got {other:?}"),
    }
}

#[test]
fn topological_order_rejects_unknown_workspace() {
    let flow = FlowFile {
        workspaces: vec![ws("a", "/a")],
        edges:      vec![edge("a", "x", "ghost", "x")],
        optimization: None,
    };
    match topological_order(&flow) {
        Err(FlowError::UnknownWorkspace(n)) => assert_eq!(n, "ghost"),
        other => panic!("expected UnknownWorkspace, got {other:?}"),
    }
}

#[test]
fn run_propagates_outputs_along_edges() {
    let vpc = Config::from_json(obj(vec![
        ("provider", obj(vec![("aws", obj(vec![("region", s("us-east-1"))]))])),
        (
            "resource",
            obj(vec![("aws_vpc", obj(vec![("net", obj(vec![("cidr_block", s("10.0.0.0/16"))]))]))]),
        ),
        ("output", obj(vec![("vpc_id", obj(vec![("value", s("vpc-flow-test"))]))])),
    ]))
    .unwrap();
    let cluster = Config::from_json(obj(vec![
        ("provider", obj(vec![("aws", obj(vec![("region", s("us-east-1"))]))])),
        ("resource", obj(vec![("aws_iam_role", obj(vec![("node", obj(vec![("name", s("n"))]))]))])),
    ]))
    .unwrap();
    let flow = FlowFile {
        workspaces: vec![ws("vpc", "vpc"), ws("cluster", "cluster")],
        edges: vec![edge("vpc", "vpc_id", "cluster", "vpc_id")],
        optimization: None,
    };

    let mut configs = vec![("vpc", vpc), ("cluster", cluster)];
    let mut run = FlowRun::start(&flow).unwrap();
    while let Some(w) = run.next_workspace() {
        let (name, cfg) = configs.remove(0);
        assert_eq!(w.name, name);
        assert_eq!(w.dir, name);
        let step = Step::Planned { cfg, plan_id: vec![0xab; 2], changes: 1 };
        run = run.advance(step).unwrap();
    }
    let report = run.finish();
    assert_eq!(
        report.workspaces.iter().map(|s| s.workspace.clone()).collect::<Vec<_>>(),
        vec!["vpc", "cluster"]
    );
    assert_eq!(
        report.propagated.get("cluster.vpc_id"),
        Some(&Json::String("vpc-flow-test".into())),
    );
    assert_eq!(report.propagated.len(), 1);
    assert_eq!(report.workspaces[0].plan_id, "abab");
    assert_eq!(report.workspaces[0].changes, 1);
    assert_eq!(report.workspaces[0].outputs.len(), 1);
    assert!(report.workspaces[1].outputs.is_empty());
}

#[test]
fn a_failing_workspace_ends_the_run() {
    let flow = FlowFile {
        workspaces: vec![ws("a", "/a"), ws("b", "/b")],
        edges: vec![edge("b", "x", "a", "x")],
        optimization: None,
    };
    let run = FlowRun::start(&flow).unwrap();
    assert_eq!(run.next_workspace().unwrap().dir, "/b");
    let step = Step::Failed { stage: "load", message: "no files".into() };
    let error = run.advance(step).unwrap_err();
    assert_eq!(error.message(), "workspace b: load: no files");
}

#[test]
fn a_run_without_an_order_does_not_start() {
    let flow = FlowFile {
        workspaces: vec![ws("a", "/a"), ws("b", "/b")],
        edges: vec![edge("a", "x", "b", "x"), edge("b", "y", "a", "y")],
        optimization: None,
    };
    assert!(matches!(FlowRun::start(&flow), Err(FlowError::Cycle(_))));
    let empty = FlowFile { workspaces: vec![], edges: vec![], optimization: None };
    let run = FlowRun::start(&empty).unwrap();
    assert!(run.next_workspace().is_none());
    assert!(run.finish().workspaces.is_empty());
}

#[test]
fn errors_say_what_is_wrong() {
    assert_eq!(
        FlowError::UnknownWorkspace("ghost".into()).message(),
        "flow references unknown workspace: ghost"
    );
    assert_eq!(
        FlowError::Cycle(vec!["a".into(), "b\"c".into()]).message(),
        format!("flow has a cycle (involving: {:?})", vec!["a", "b\"c"])
    );
    assert_eq!(FlowError::Cycle(vec![]).message(), "flow has a cycle (involving: [])");
    let step = FlowError::WorkspaceStep {
        workspace: "vpc".into(),
        stage: "load",
        message: "no such file".into(),
    };
    assert_eq!(step.message(), "workspace vpc: load: no such file");
}
