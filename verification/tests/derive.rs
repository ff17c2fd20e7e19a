use magma::derive::{
    build_arms, derive_discriminant, enum_config, explicit_name, to_kebab, to_snake,
    variant_pattern, Case, Setting, Shape, Variant,
};

fn set(key: &str, value: &str) -> Setting {
    Setting {
        key: key.to_string(),
        value: value.to_string(),
    }
}

fn variant(ident: &str, shape: Shape) -> Variant {
    Variant {
        ident: ident.to_string(),
        shape,
        attrs: vec![],
    }
}

#[test]
fn names_change_case() {
    assert_eq!(to_kebab("PermissionDenied"), "permission-denied");
    assert_eq!(to_snake("PermissionDenied"), "permission_denied");
    assert_eq!(Case::Lower.apply("NotFound"), "notfound");
    assert_eq!(Case::Title.apply("NotFound"), "NotFound");
    assert_eq!(to_kebab("HTTPError"), "h-t-t-p-error");
    assert_eq!(to_kebab("already"), "already");
    assert_eq!(to_kebab("ÉtatNon"), "État-non");
    assert_eq!(to_kebab(""), "");
}

#[test]
fn cases_are_named() {
    assert_eq!(Case::parse("kebab"), Some(Case::Kebab));
    assert_eq!(Case::parse("kebab-case"), Some(Case::Kebab));
    assert_eq!(Case::parse("snake"), Some(Case::Snake));
    assert_eq!(Case::parse("snake_case"), Some(Case::Snake));
    assert_eq!(Case::parse("lower"), Some(Case::Lower));
    assert_eq!(Case::parse("lowercase"), Some(Case::Lower));
    assert_eq!(Case::parse("title"), Some(Case::Title));
    assert_eq!(Case::parse("Title"), Some(Case::Title));
    assert_eq!(Case::parse("TitleCase"), Some(Case::Title));
    assert_eq!(Case::parse("camel"), None);
}

#[test]
fn settings_are_folded() {
    let none = enum_config(&vec![]);
    assert_eq!(none.method, "discriminant");
    assert_eq!(none.case, Case::Kebab);
    let some = enum_config(&vec![
        set("method", "kind"),
        set("case", "snake"),
        set("case", "camel"),
        set("other", "x"),
    ]);
    assert_eq!(some.method, "kind");
    assert_eq!(some.case, Case::Snake);
}

#[test]
fn a_given_name_goes_first() {
    let attrs = vec![
        vec![set("case", "x")],
        vec![set("name", "old"), set("name", "wire")],
        vec![set("name", "later")],
    ];
    assert_eq!(explicit_name(&attrs).map(|x| x.as_str()), Some("wire"));
    assert_eq!(explicit_name(&vec![]), None);
}

#[test]
fn patterns_follow_the_shape() {
    assert_eq!(variant_pattern(&variant("A", Shape::Unit)), "Self::A");
    assert_eq!(variant_pattern(&variant("A", Shape::Unnamed)), "Self::A(..)");
    assert_eq!(variant_pattern(&variant("A", Shape::Named)), "Self::A { .. }");
}

#[test]
fn an_enum_gets_its_method() {
    let mut named = variant("Permanent", Shape::Named);
    named.attrs = vec![vec![set("name", "explicit-name")]];
    let vs = vec![variant("NotFound", Shape::Named), variant("Empty", Shape::Unit), named];
    let x = derive_discriminant(&vec![set("method", "kind")], Some(&vs)).unwrap();
    assert_eq!(x.method, "kind");
    assert_eq!(
        x.arms,
        vec![
            ("Self::NotFound { .. }".to_string(), "not-found".to_string()),
            ("Self::Empty".to_string(), "empty".to_string()),
            ("Self::Permanent { .. }".to_string(), "explicit-name".to_string()),
        ]
    );
    assert_eq!(build_arms(&vs, Case::Snake)[0].1, "not_found");
    assert_eq!(
        derive_discriminant(&vec![], None).unwrap_err(),
        "#[derive(Discriminant)] is only valid on enums"
    );
}
