use magma::cli::{detect_mode, mode_for, InvokeMode, TfEnv};
use magma::config::resolve::resolve_reference;
use magma::config::{Config, ConfigError};
use magma::converge::dns::{
    dns_severity, join_address, parse_address, severity_for_type, split_address, Record, RecordKey,
};
use magma::converge::github::RepoSettings;
use magma::converge::helm::ReleaseSpec;
use magma::converge::refspec::{RefSpec, RefSpecParseError};
use magma::converge::store::Shaped;
use magma::converge::webhook::payload_from;
use magma::converge::{change, change_with_severity, Action, ChangeSeverity, Plan, PlanId};
use magma::cty::msgpack::{decode_message, marshal, to_rmpv, unmarshal};
use magma::cty::types::CtyType;
use magma::cty::value::CtyValue;
use magma::cty::wire::{Int, Msg};
use magma::cty::CtyError;
use magma::fixtures::TfJsonBuilder;
use magma::json::{Json, Number};
use magma::ordmap::StrMap;
use shigoto_types::converge as outside;

fn s(x: &str) -> Json {
    Json::string(x)
}

fn n(x: i64) -> Json {
    Json::integer(x)
}

fn obj(members: Vec<(&str, Json)>) -> Json {
    Json::object(members.into_iter().map(|(k, v)| (k.to_string(), v)).collect())
}

fn float(x: f64) -> Json {
    Json::Number(Number::Float(x.to_bits()))
}

#[test]
fn json_is_written_as_serde_json_writes_it() {
    let v = obj(vec![
        ("b", Json::Array(vec![Json::Null, Json::Bool(true), n(-3), n(7)])),
        ("a", s("q\"\\\n\u{e9}")),
        ("f", float(2.5)),
    ]);
    let text = v.text();
    assert_eq!(text, "{\"a\":\"q\\\"\\\\\\né\",\"b\":[null,true,-3,7],\"f\":2.5}");
    let outside: serde_json::Value = serde_json::from_str(&text).unwrap();
    assert_eq!(outside.to_string(), text);
    assert_eq!(Json::parse(&text).unwrap(), v);
}

#[test]
fn json_numbers_keep_their_kind() {
    assert_eq!(
        Json::parse("18446744073709551615").unwrap(),
        Json::Number(Number::PosInt(u64::MAX))
    );
    assert_eq!(Json::parse("-9223372036854775808").unwrap(), n(i64::MIN));
    assert_eq!(Json::parse("1e3").unwrap(), float(1000.0));
    assert_eq!(Json::parse("0.5").unwrap(), float(0.5));
    assert_eq!(float(f64::INFINITY).text(), "null");
    assert_ne!(Json::parse("1").unwrap(), Json::parse("1.0").unwrap());
}

#[test]
fn json_errors_are_those_of_the_parser() {
    let outside = serde_json::from_str::<serde_json::Value>("{\"a\":}").unwrap_err().to_string();
    assert_eq!(Json::parse("{\"a\":}").unwrap_err(), outside);
}

#[test]
fn json_members_are_in_order_and_the_last_one_stays() {
    let v = Json::parse(r#"{"b":1,"a":2,"b":3}"#).unwrap();
    assert_eq!(v.text(), r#"{"a":2,"b":3}"#);
    assert_eq!(v.get("b"), Some(&n(3)));
    assert_eq!(v.get("c"), None);
}

#[test]
fn pretty_text_is_indented() {
    let text = TfJsonBuilder::new().no_default_provider().to_pretty_json();
    assert_eq!(text, "{\n  \"provider\": {},\n  \"resource\": {}\n}");
}

#[test]
fn plan_ids_are_those_of_the_shared_crate() {
    let mine = vec![
        change("kv.a", Action::Create, None, Some(obj(vec![("x", n(1)), ("f", float(1.5))]))),
        change("kv.b", Action::Update, Some(s("old")), Some(s("new"))),
        change("kv.c", Action::Delete, Some(Json::Bool(true)), None),
        change_with_severity("kv.d", Action::Replace, ChangeSeverity::Cosmetic, None, None),
        change("kv.e", Action::NoOp, None, None),
    ];
    let theirs = vec![
        outside::change(
            "kv.a",
            outside::Action::Create,
            None,
            Some(serde_json::from_str(r#"{"x":1,"f":1.5}"#).unwrap()),
        ),
        outside::change(
            "kv.b",
            outside::Action::Update,
            Some(serde_json::Value::from("old")),
            Some(serde_json::Value::from("new")),
        ),
        outside::change(
            "kv.c",
            outside::Action::Delete,
            Some(serde_json::Value::from(true)),
            None,
        ),
        outside::change_with_severity(
            "kv.d",
            outside::Action::Replace,
            outside::ChangeSeverity::Cosmetic,
            None,
            None,
        ),
        outside::change("kv.e", outside::Action::NoOp, None, None),
    ];
    let expected = outside::Plan::derive_id("inmemory_kv", &theirs).0;
    assert_eq!(Plan::derive_id("inmemory_kv", &mine).0, expected);
    let plan = Plan::new("inmemory_kv", mine);
    assert_eq!(plan.id.0, expected);
    assert_eq!(plan.change_count(), 4);
}

#[test]
fn plan_ids_are_digests() {
    let expected = blake3::hash(br#"{"changes":[],"kind":"k"}"#).to_hex().to_string();
    assert_eq!(Plan::derive_id("k", &vec![]).0, expected);
    assert_eq!(PlanId::of(b"abc").0, blake3::hash(b"abc").to_hex().to_string());
}

#[test]
fn plans_are_made_now() {
    let before = chrono::Utc::now();
    let plan = Plan::new("k", vec![]);
    let after = chrono::Utc::now();
    assert!(plan.created_at.secs >= before.timestamp());
    assert!(plan.created_at.secs <= after.timestamp());
    assert!(plan.created_at.nanos < 2_000_000_000);
}

#[test]
fn messages_have_the_bytes_of_msgpack() {
    assert_eq!(marshal(&CtyValue::Bool(true), &CtyType::Bool).unwrap(), vec![0xc3]);
    assert_eq!(marshal(&CtyValue::integer(5), &CtyType::Number).unwrap(), vec![0x05]);
    assert_eq!(marshal(&CtyValue::integer(-1), &CtyType::Number).unwrap(), vec![0xff]);
    assert_eq!(marshal(&CtyValue::string("hi"), &CtyType::String).unwrap(), vec![0xa2, b'h', b'i']);
    let half = CtyValue::Number(Number::Float(0.5f64.to_bits()));
    assert_eq!(
        marshal(&half, &CtyType::Number).unwrap(),
        vec![0xcb, 0x3f, 0xe0, 0, 0, 0, 0, 0, 0]
    );
    let mut m = StrMap::new();
    m.insert("b".to_string(), CtyValue::integer(2));
    m.insert("a".to_string(), CtyValue::integer(1));
    assert_eq!(
        marshal(&CtyValue::MapOf(m), &CtyType::map(CtyType::Number)).unwrap(),
        vec![0x82, 0xa1, b'a', 1, 0xa1, b'b', 2]
    );
}

#[test]
fn single_floats_are_widened() {
    let bytes = [0xca, 0x3f, 0x00, 0x00, 0x00];
    assert_eq!(
        unmarshal(&bytes, &CtyType::Number).unwrap(),
        CtyValue::Number(Number::Float(0.5f64.to_bits()))
    );
    let nan = [0xca, 0x7f, 0xc0, 0x00, 0x00];
    assert!(matches!(unmarshal(&nan, &CtyType::Number), Err(CtyError::Decode(_))));
}

#[test]
fn dynamic_values_carry_their_type() {
    let bytes = marshal(&CtyValue::string("dyn"), &CtyType::DynamicPseudoType).unwrap();
    assert_eq!(bytes[0], 0x92);
    let back = unmarshal(&bytes, &CtyType::DynamicPseudoType).unwrap();
    assert_eq!(back, CtyValue::string("dyn"));
}

#[test]
fn broken_messages_are_refused() {
    assert!(matches!(unmarshal(&[], &CtyType::String), Err(CtyError::Decode(_))));
    assert!(matches!(unmarshal(&[0xd9, 5, b'a'], &CtyType::String), Err(CtyError::Decode(_))));
    match unmarshal(&[0xc3], &CtyType::String) {
        Err(CtyError::Decode(m)) => assert!(m.contains("Boolean(true)"), "got {m}"),
        other => panic!("expected a decode error, got {other:?}"),
    }
}

#[test]
fn record_types_change_case() {
    let k = RecordKey {
        zone: "ex.com".into(),
        name: "api".into(),
        rtype: "CName".into(),
    };
    assert!(k.address().ends_with(":cname"));
    assert_eq!(parse_address(&k.address()).unwrap().rtype, "CNAME");
    assert_eq!(dns_severity(Action::Update, &k), ChangeSeverity::Critical);
}

#[test]
fn quoted_texts_are_quoted_as_rust_does() {
    let e = RefSpec::parse("no\"colon").unwrap_err();
    match &e {
        RefSpecParseError::MissingSeparator(x) => assert_eq!(x, "no\"colon"),
        other => panic!("expected MissingSeparator, got {other:?}"),
    }
    assert!(e.message().contains(&format!("{:?}", "no\"colon")));
    let r = resolve_reference("${a.b}", &StrMap::new()).unwrap_err();
    assert!(matches!(r, ConfigError::UnknownReference(_)));
    assert!(r.message().starts_with("unknown interpolation reference: \""));
}

#[test]
fn records_are_read_with_the_messages_of_serde() {
    let bad = obj(vec![("chart", n(1))]);
    match ReleaseSpec::from_json(&bad) {
        Err(m) => assert_eq!(m, "invalid type: integer `1`, expected a string"),
        Ok(x) => panic!("expected an error, got {x:?}"),
    }
    match RepoSettings::from_json(&s("x")) {
        Err(m) => assert_eq!(m, "invalid type: string \"x\", expected struct RepoSettings"),
        Ok(x) => panic!("expected an error, got {x:?}"),
    }
    match Record::from_json(&obj(vec![])) {
        Err(m) => assert_eq!(m, "missing field `key`"),
        Ok(x) => panic!("expected an error, got {x:?}"),
    }
}

#[test]
fn values_become_messages() {
    let string = || Box::new(CtyType::String);
    assert!(matches!(to_rmpv(&CtyValue::Null, &CtyType::Bool), Ok(Msg::Nil)));
    match to_rmpv(&CtyValue::Unknown, &CtyType::Number) {
        Ok(Msg::Ext(0, b)) => assert_eq!(b, vec![0]),
        other => panic!("{other:?}"),
    }
    assert!(matches!(
        to_rmpv(&CtyValue::integer(-3), &CtyType::Number),
        Ok(Msg::Integer(Int::NegInt(-3)))
    ));
    match to_rmpv(&CtyValue::SetOf(vec![CtyValue::String("a".into())]), &CtyType::SetOf(string())) {
        Ok(Msg::Array(xs)) => assert!(matches!(&xs[0], Msg::String(x) if x == "a")),
        other => panic!("{other:?}"),
    }
    assert!(matches!(to_rmpv(&CtyValue::Bool(true), &CtyType::String), Err(CtyError::Encode(_))));
}

#[test]
fn messages_become_values() {
    let string = || Box::new(CtyType::String);
    let text = |x: &str| Msg::String(x.into());
    assert_eq!(decode_message(&Msg::Nil, &CtyType::String).unwrap(), CtyValue::Null);
    assert_eq!(decode_message(&Msg::Ext(0, vec![0]), &CtyType::Bool).unwrap(), CtyValue::Unknown);
    let pairs = Msg::Pairs(vec![(text("k"), text("1")), (text("k"), text("2"))]);
    let mut expected = StrMap::new();
    expected.insert("k".to_string(), CtyValue::String("2".into()));
    assert_eq!(
        decode_message(&pairs, &CtyType::MapOf(string())).unwrap(),
        CtyValue::MapOf(expected)
    );
    match decode_message(&Msg::Array(vec![]), &CtyType::DynamicPseudoType) {
        Err(CtyError::Decode(e)) => assert_eq!(e, "dynamic wrapper must be a 2-array"),
        other => panic!("{other:?}"),
    }
    let number = |bits| decode_message(&Msg::F64(bits), &CtyType::Number);
    assert_eq!(
        number(1.5f64.to_bits()).unwrap(),
        CtyValue::Number(Number::Float(1.5f64.to_bits()))
    );
    assert!(number(f64::INFINITY.to_bits()).is_err());
}

#[test]
fn addresses_are_joined_and_split() {
    let address = join_address("ex.com", "www", "a");
    assert_eq!(address, "dns_record:ex.com:www:a");
    let parts = split_address(&address).unwrap();
    assert_eq!(parts, ("ex.com".to_string(), "www".to_string(), "a".to_string()));
    assert_eq!(split_address("dns_record:z:n:t:u").unwrap().2, "t:u");
    assert!(split_address("dns_record:z:n").is_none());
    assert!(split_address("record:z:n:t").is_none());
    assert_eq!(severity_for_type(Action::Update, "CNAME"), ChangeSeverity::Critical);
    assert_eq!(severity_for_type(Action::Update, "cname"), ChangeSeverity::Functional);
    assert_eq!(severity_for_type(Action::Delete, "A"), ChangeSeverity::Critical);
}

#[test]
fn bodies_that_are_not_json_are_null() {
    assert_eq!(payload_from(Ok(n(1))), n(1));
    assert_eq!(payload_from(Err("no".into())), Json::Null);
}

#[test]
fn names_in_lower_case_give_the_mode() {
    assert_eq!(mode_for("terraform-1.5", None), InvokeMode::TerraformCompat);
    assert_eq!(mode_for("Terraform", None), InvokeMode::MagmaNative);
    assert_eq!(detect_mode("Terraform", None), InvokeMode::TerraformCompat);
    assert_eq!(mode_for("terraform", Some("tofu")), InvokeMode::OpenTofuCompat);
    assert_eq!(mode_for("terraform", Some("x")), InvokeMode::MagmaNative);
}

#[test]
fn variables_are_taken_by_their_folded_part() {
    let mut env = TfEnv::new();
    env.take_folded("TF_VAR_Region", "eu", "region");
    env.take_folded("TF_INPUT", "NO", "no");
    env.take_folded("TF_CLI_ARGS_Plan", "-x", "plan");
    assert_eq!(env.vars.get("region").unwrap(), "eu");
    assert_eq!(env.cli_args.get("plan").unwrap(), "-x");
    assert!(!env.input_enabled);
    env.take_folded("TF_INPUT", "NO", "NO");
    assert!(env.input_enabled);
    env.take("TF_INPUT", "NO");
    assert!(!env.input_enabled);
}

#[test]
fn single_floats_that_are_no_numbers_are_refused() {
    let infinite = [0xca, 0x7f, 0x80, 0x00, 0x00];
    let below = [0xca, 0xff, 0x80, 0x00, 0x00];
    let signalling = [0xca, 0x7f, 0x80, 0x00, 0x01];
    for bytes in [infinite, below, signalling] {
        match unmarshal(&bytes, &CtyType::Number) {
            Err(CtyError::Decode(m)) => assert_eq!(m, "non-finite float"),
            other => panic!("{other:?}"),
        }
    }
    let smallest = [0xca, 0x00, 0x00, 0x00, 0x01];
    assert_eq!(
        unmarshal(&smallest, &CtyType::Number).unwrap(),
        CtyValue::Number(Number::Float(f64::from(f32::from_bits(1)).to_bits()))
    );
}

#[test]
fn types_of_records_are_folded() {
    let k = RecordKey { zone: "ex.com".into(), name: "www".into(), rtype: "CNAME".into() };
    assert_eq!(k.address(), "dns_record:ex.com:www:cname");
    let back = parse_address("dns_record:ex.com:www:cname").unwrap();
    assert_eq!(back.rtype, "CNAME");
    assert_eq!(back.address(), k.address());
}

#[test]
fn faults_of_maps_are_told_as_serde_tells_them() {
    for text in ["5", "1.5", "true", "\"x\\n\"", "null", "[1]"] {
        let outside: serde_json::Value = serde_json::from_str(text).unwrap();
        let told = serde_json::from_value::<std::collections::HashMap<String, u8>>(outside)
            .unwrap_err()
            .to_string();
        let block = Json::parse_bytes(format!("{{\"module\":{text}}}").as_bytes()).unwrap();
        match Config::from_json(block) {
            Err(ConfigError::Serde(m)) => assert_eq!(m, told),
            other => panic!("{other:?}"),
        }
    }
    let many: Vec<serde_json::Value> = vec![serde_json::Value::Null; 3];
    let told = serde_json::from_value::<(Option<u8>, Option<u8>)>(serde_json::Value::Array(many))
        .unwrap_err()
        .to_string();
    assert_eq!(told, "invalid length 3, expected fewer elements in array");
}
