use magma::cty::json::from_json;
use magma::cty::msgpack::{marshal, unmarshal};
use magma::cty::types::CtyType;
use magma::cty::value::CtyValue;
use magma::cty::{CtyError, DynamicValue};
use magma::json::{Json, Number};
use magma::ordmap::StrMap;

fn s(x: &str) -> Json {
    Json::string(x)
}

fn n(x: i64) -> Json {
    Json::integer(x)
}

fn obj(members: Vec<(&str, Json)>) -> Json {
    Json::object(members.into_iter().map(|(k, v)| (k.to_string(), v)).collect())
}

fn arr(xs: Vec<Json>) -> Json {
    Json::Array(xs)
}

fn roundtrip(value: CtyValue, ty: CtyType) {
    let bytes = marshal(&value, &ty).expect("marshal");
    let back = unmarshal(&bytes, &ty).expect("unmarshal");
    assert_eq!(back, value, "round-trip under {ty:?}");
}

fn obj_elem() -> CtyType {
    let mut a = StrMap::new();
    a.insert("build_type".to_string(), CtyType::String);
    CtyType::Object(a)
}

#[test]
fn scalars_roundtrip() {
    roundtrip(CtyValue::string("hello"), CtyType::String);
    roundtrip(CtyValue::Bool(true), CtyType::Bool);
    roundtrip(CtyValue::Bool(false), CtyType::Bool);
    roundtrip(CtyValue::integer(42), CtyType::Number);
    roundtrip(CtyValue::integer(-7), CtyType::Number);
    roundtrip(
        CtyValue::Number(Number::Float(3.5f64.to_bits())),
        CtyType::Number,
    );
}

#[test]
fn null_encodes_as_msgpack_nil() {
    let bytes = marshal(&CtyValue::Null, &CtyType::String).unwrap();
    assert_eq!(bytes, vec![0xc0], "null must be msgpack nil (0xc0)");
    assert_eq!(unmarshal(&bytes, &CtyType::String).unwrap(), CtyValue::Null);
}

#[test]
fn unknown_encodes_as_ext_type_zero() {
    let bytes = marshal(&CtyValue::Unknown, &CtyType::Number).unwrap();
    // fixext1 (0xd4), ext type 0x00, payload 0x00 — the go-cty
    // unknown-value extension.
    assert_eq!(bytes, vec![0xd4, 0x00, 0x00], "unknown must be ext type 0");
    assert_eq!(
        unmarshal(&bytes, &CtyType::Number).unwrap(),
        CtyValue::Unknown
    );
}

#[test]
fn list_and_set_roundtrip() {
    let v = CtyValue::List(vec![CtyValue::string("a"), CtyValue::string("b")]);
    roundtrip(v, CtyType::list(CtyType::String));
    let s = CtyValue::SetOf(vec![CtyValue::integer(1), CtyValue::integer(2)]);
    roundtrip(s, CtyType::set(CtyType::Number));
}

#[test]
fn map_roundtrip() {
    let mut m = StrMap::new();
    m.insert("x".into(), CtyValue::string("1"));
    m.insert("y".into(), CtyValue::string("2"));
    roundtrip(CtyValue::MapOf(m), CtyType::map(CtyType::String));
}

#[test]
fn object_roundtrip_with_null_optional() {
    // github_repository-shaped: name (string), private (bool),
    // description (optional → null), topics (list(string)).
    let ty = CtyType::object(vec![
        ("name".into(), CtyType::String),
        ("private".into(), CtyType::Bool),
        ("description".into(), CtyType::String),
        ("topics".into(), CtyType::list(CtyType::String)),
    ]);
    let mut o = StrMap::new();
    o.insert("name".into(), CtyValue::string("galho"));
    o.insert("private".into(), CtyValue::Bool(false));
    o.insert("description".into(), CtyValue::Null);
    o.insert(
        "topics".into(),
        CtyValue::List(vec![CtyValue::string("rust"), CtyValue::string("iac")]),
    );
    roundtrip(CtyValue::Object(o), ty);
}

#[test]
fn object_fills_absent_attr_with_null() {
    let ty = CtyType::object(vec![
        ("name".into(), CtyType::String),
        ("description".into(), CtyType::String),
    ]);
    // Value omits `description` entirely.
    let mut o = StrMap::new();
    o.insert("name".into(), CtyValue::string("galho"));
    let bytes = marshal(&CtyValue::Object(o), &ty).unwrap();
    let back = unmarshal(&bytes, &ty).unwrap();
    if let CtyValue::Object(m) = back {
        assert_eq!(
            m.get("description"),
            Some(&CtyValue::Null),
            "absent attr → null"
        );
    } else {
        panic!("expected object");
    }
}

#[test]
fn nested_object_in_list_roundtrip() {
    // list(object({ key=string, value=string })) — github labels.
    let elem = CtyType::object(vec![
        ("key".into(), CtyType::String),
        ("value".into(), CtyType::String),
    ]);
    let mk = |k: &str, v: &str| {
        CtyValue::object(vec![
            ("key".into(), CtyValue::string(k)),
            ("value".into(), CtyValue::string(v)),
        ])
    };
    roundtrip(
        CtyValue::List(vec![mk("a", "1"), mk("b", "2")]),
        CtyType::list(elem),
    );
}

#[test]
fn dynamic_pseudo_type_roundtrip() {
    roundtrip(CtyValue::string("dyn"), CtyType::DynamicPseudoType);
    roundtrip(CtyValue::integer(9), CtyType::DynamicPseudoType);
    roundtrip(
        CtyValue::List(vec![CtyValue::string("a")]),
        CtyType::DynamicPseudoType,
    );
}

#[test]
fn type_json_roundtrips() {
    let ty = CtyType::object(vec![
        ("a".into(), CtyType::String),
        ("b".into(), CtyType::list(CtyType::Number)),
        ("c".into(), CtyType::map(CtyType::Bool)),
    ]);
    let j = ty.to_json();
    assert_eq!(CtyType::from_json(&j).unwrap(), ty);
}

#[test]
fn json_bridge_drives_apply_shape() {
    // The apply path: rendered JSON attributes + schema type → wire.
    let ty = CtyType::object(vec![
        ("name".into(), CtyType::String),
        ("private".into(), CtyType::Bool),
        ("topics".into(), CtyType::list(CtyType::String)),
    ]);
    let attrs = obj(vec![("name", s("galho")), ("private", Json::Bool(false)), ("topics", arr(vec![s("rust"), s("iac"), s("gitops")]))]);
    let dv = DynamicValue::from_json(&attrs, &ty).expect("from_json");
    // Decode back to JSON — must equal the input (modulo attr order).
    let out = dv.to_json(&ty).expect("to_json");
    assert_eq!(out, attrs);
}

#[test]
fn dynamic_value_wire_roundtrip() {
    let ty = CtyType::list(CtyType::String);
    let v = CtyValue::List(vec![CtyValue::string("x")]);
    let dv = DynamicValue::marshal(&v, &ty).unwrap();
    assert_eq!(dv.to_value(&ty).unwrap(), v);
}

#[test]
fn type_mismatch_is_an_error() {
    // bool value under string type → typed encode error, not panic.
    let err = marshal(&CtyValue::Bool(true), &CtyType::String).unwrap_err();
    assert!(matches!(err, CtyError::Encode(_)));
}

#[test]
fn max_items_one_block_written_as_object_coerces_to_single_element_list() {
    // github_repository's `pages = { build_type = "workflow" }`: a single
    // object for a list(object) block must become a 1-element list.
    let ty = CtyType::List(Box::new(obj_elem()));
    let v = obj(vec![("build_type", s("workflow"))]);
    let out = from_json(&v, &ty).expect("object coerces to single-element list");
    match out {
        CtyValue::List(xs) => assert_eq!(xs.len(), 1, "exactly one element"),
        other => panic!("expected list, got {other:?}"),
    }
}

#[test]
fn null_list_is_cty_null() {
    // A null list attribute resolves to cty null (handled at the top of
    // from_json), which the provider accepts as an absent block.
    let ty = CtyType::List(Box::new(obj_elem()));
    let out = from_json(&Json::Null, &ty).expect("null → cty null");
    assert!(matches!(out, CtyValue::Null));
}

#[test]
fn array_still_works_and_non_object_elem_still_errors() {
    // Normal array path unchanged.
    let ty = CtyType::List(Box::new(obj_elem()));
    let items = arr(vec![obj(vec![("build_type", s("legacy"))]), obj(vec![("build_type", s("workflow"))])]);
    assert!(matches!(from_json(&items, &ty), Ok(CtyValue::List(xs)) if xs.len() == 2));
    // A genuine list(string) given an object must STILL error (no over-coercion).
    let sty = CtyType::List(Box::new(CtyType::String));
    assert!(from_json(&obj(vec![("x", s("y"))]), &sty).is_err());
}

#[test]
fn an_attribute_absent_from_the_schema_is_dropped_not_forwarded() {
    let ty = CtyType::object(vec![
            ("type".to_string(), CtyType::String),
            ("from_port".to_string(), CtyType::Number),
        ]);
    let v = from_json(
        &obj(vec![("type", s("ingress")), ("from_port", n(51822)), ("allow_public_ingress", Json::Bool(true))]),
        &ty,
    )
    .expect("extra keys must not make encoding fail");

    let CtyValue::Object(m) = v else {
        panic!("expected an object");
    };
    assert!(
        !m.contains_key("allow_public_ingress"),
        "an unknown attribute must never reach the provider payload"
    );
    assert_eq!(m.len(), 2, "exactly the schema's attributes, no more");
    assert_eq!(m.get("type"), Some(&CtyValue::String("ingress".into())));
}

#[test]
fn dynamic_sets_come_back_as_sets() {
    roundtrip(CtyValue::SetOf(vec![CtyValue::integer(1)]), CtyType::DynamicPseudoType);
    roundtrip(CtyValue::SetOf(vec![]), CtyType::DynamicPseudoType);
    roundtrip(
        CtyValue::List(vec![CtyValue::SetOf(vec![CtyValue::string("a")])]),
        CtyType::DynamicPseudoType,
    );
    roundtrip(
        CtyValue::Tuple(vec![CtyValue::SetOf(vec![CtyValue::Bool(true)]), CtyValue::integer(2)]),
        CtyType::DynamicPseudoType,
    );
}

#[test]
fn errors_have_words() {
    assert_eq!(CtyError::Type("x".into()).message(), "cty type error: x");
    assert_eq!(CtyError::Encode("x".into()).message(), "msgpack encode: x");
    assert_eq!(CtyError::Decode("x".into()).message(), "msgpack decode: x");
    assert_eq!(CtyError::Type("x".into()), CtyError::Type("x".into()));
}
