use magma::fixtures::{StateBuilder, TfJsonBuilder};
use magma::json::Json;

fn s(x: &str) -> Json {
    Json::string(x)
}

fn obj(members: Vec<(&str, Json)>) -> Json {
    Json::object(members.into_iter().map(|(k, v)| (k.to_string(), v)).collect())
}

fn dig(v: &Json, path: &[&str]) -> Json {
    let mut here = v.clone();
    for step in path {
        let next = match step.parse::<usize>() {
            Ok(i) => here.at(i).cloned(),
            Err(_) => here.get(step).cloned(),
        };
        here = next.unwrap();
    }
    here
}

#[test]
fn tf_json_default_emits_provider_and_resource() {
    let v = TfJsonBuilder::new()
        .resource("aws_vpc", "net", obj(vec![("cidr_block", s("10.0.0.0/16"))]))
        .output("vpc_id", s("vpc-x"))
        .to_value();
    assert_eq!(dig(&v, &["provider", "aws", "region"]), s("us-east-1"));
    assert_eq!(dig(&v, &["resource", "aws_vpc", "net", "cidr_block"]), s("10.0.0.0/16"));
    assert_eq!(dig(&v, &["output", "vpc_id", "value"]), s("vpc-x"));
}

#[test]
fn tf_json_multiple_resources_of_same_type_share_key() {
    let v = TfJsonBuilder::new()
        .resource("aws_iam_role", "a", obj(vec![("name", s("a"))]))
        .resource("aws_iam_role", "b", obj(vec![("name", s("b"))]))
        .to_value();
    let roles = dig(&v, &["resource", "aws_iam_role"]);
    assert!(matches!(dig(&roles, &["a"]), Json::Object(_)));
    assert!(matches!(dig(&roles, &["b"]), Json::Object(_)));
}

#[test]
fn tf_json_without_outputs_has_no_output_entry() {
    let v = TfJsonBuilder::new().to_value();
    assert!(v.get("output").is_none());
    assert_eq!(dig(&v, &["resource"]), obj(vec![]));
    let bare = TfJsonBuilder::new().no_default_provider().to_value();
    assert_eq!(dig(&bare, &["provider"]), obj(vec![]));
}

#[test]
fn tf_json_renders_to_indented_text() {
    let b = TfJsonBuilder::new().resource("aws_iam_role", "r", obj(vec![("name", s("r"))]));
    let text = b.to_pretty_json();
    assert!(text.contains("\"aws_iam_role\""));
    assert!(text.starts_with("{\n  \"provider\""));
    assert_eq!(Json::parse(&text).unwrap(), b.to_value());
}

#[test]
fn the_last_of_two_resources_stays() {
    let v = TfJsonBuilder::new()
        .resource("aws_iam_role", "r", obj(vec![("name", s("first"))]))
        .resource("aws_iam_role", "r", obj(vec![("name", s("second"))]))
        .provider("aws", obj(vec![("region", s("eu-west-1"))]))
        .to_value();
    assert_eq!(dig(&v, &["resource", "aws_iam_role", "r", "name"]), s("second"));
    assert_eq!(dig(&v, &["provider", "aws", "region"]), s("eu-west-1"));
}

#[test]
fn state_builder_builds_the_state() {
    let state = StateBuilder::new()
        .resource("aws_iam_role", "alpha", obj(vec![("name", s("alpha"))]))
        .build();
    assert_eq!(state.resources.len(), 1);
    assert_eq!(state.resources[0].address.name, "alpha");
    assert_eq!(state.resources[0].provider.source, "hashicorp/aws");
    assert_eq!(state.resources[0].instances[0].attributes, obj(vec![("name", s("alpha"))]));
    assert_eq!(state.version, 4);
    assert_eq!(state.serial, 1);
    assert_eq!(state.terraform_version, "1.7.0");
}

#[test]
fn a_given_lineage_and_serial_are_kept() {
    let want = uuid::Uuid::nil().as_u128();
    let state = StateBuilder::new()
        .lineage(want)
        .serial(9)
        .resource("aws_iam_role", "x", obj(vec![]))
        .build();
    assert_eq!(state.lineage, want);
    assert_eq!(state.serial, 9);
}

#[test]
fn a_new_lineage_is_a_random_uuid() {
    let a = StateBuilder::new().build().lineage;
    let b = StateBuilder::new().build().lineage;
    assert_ne!(a, b);
    assert_eq!(uuid::Uuid::from_u128(a).get_version_num(), 4);
    assert_eq!((a >> 76) & 0xf, 4);
    assert_eq!((a >> 62) & 0x3, 2);
}
