//! What is wrong with JSON that is no workspace: the first fault, in the
//! order in which members are read.
use vstd::prelude::*;
use crate::config::{
    any_ok, field, is_record, map_ok, object_ok, output_ok, required_ok, terraform_ok,
    well_shaped,
};
use crate::converge::decode;
use crate::converge::decode::{clash, clash_text, fault, find_fault, opt_text_view, Field, Shape};
use crate::json::{lemma_array_view, lemma_object_view, list_view, object_view, Json, JsonV};
use crate::ordmap;
use crate::ordmap::StrMap;
use crate::text;

verus! {

/// What the members of a JSON value have to be.
pub trait Members {
    /// What is wrong with the member under a key; nothing where it may stand
    /// there.
    spec fn wrong(key: Seq<char>, v: JsonV) -> Option<Seq<char>>;

    fn find_wrong(key: &str, v: &Json) -> (r: Option<String>)
        ensures
            opt_text_view(r) == Self::wrong(key@, v@),
    ;
}

/// The first fault among members, in their order.
pub open spec fn first_wrong<P: Members>(m: Seq<(Seq<char>, JsonV)>) -> Option<Seq<char>>
    decreases m.len(),
{
    if m.len() == 0 {
        None
    } else {
        match P::wrong(m[0].0, m[0].1) {
            Some(e) => Some(e),
            None => first_wrong::<P>(m.drop_first()),
        }
    }
}

/// The first fault among elements that stand for the members of these names.
pub open spec fn first_placed<P: Members>(names: Seq<Seq<char>>, xs: Seq<JsonV>) -> Option<Seq<char>>
    decreases names.len(),
{
    if names.len() == 0 || xs.len() == 0 {
        None
    } else {
        match P::wrong(names[0], xs[0]) {
            Some(e) => Some(e),
            None => first_placed::<P>(names.drop_first(), xs.drop_first()),
        }
    }
}

/// What is wrong with a value that has to be an object with such members.
pub open spec fn map_fault<P: Members>(v: JsonV) -> Option<Seq<char>> {
    match v {
        JsonV::Object(m) => first_wrong::<P>(m),
        _ => Some(clash(v, "a map"@)),
    }
}

/// What is wrong with a value that has to be a record: an object, or an array
/// that holds the members of these names in order and may end early.
pub open spec fn block_fault<P: Members>(name: Seq<char>, names: Seq<Seq<char>>, v: JsonV) -> Option<
    Seq<char>,
> {
    match v {
        JsonV::Object(m) => first_wrong::<P>(m),
        JsonV::Array(xs) => match first_placed::<P>(names, xs) {
            Some(e) => Some(e),
            None => if xs.len() > names.len() {
                Some(
                    "invalid length "@ + text::decimal(xs.len())
                        + ", expected fewer elements in array"@,
                )
            } else {
                None
            },
        },
        _ => Some(clash(v, "struct "@ + name)),
    }
}

// ── Finding it ─────────────────────────────────────────────────────

fn find_first<P: Members>(m: &StrMap<Json>) -> (r: Option<String>)
    ensures
        opt_text_view(r) == first_wrong::<P>(object_view(m@)),
{
    let ghost all = object_view(m@);
    let mut i: usize = 0;
    proof {
        assert(all.skip(0) =~= all);
    }
    while i < m.entries.len()
        invariant
            i <= m.entries@.len(),
            all == object_view(m@),
            first_wrong::<P>(all) == first_wrong::<P>(all.skip(i as int)),
        decreases m.entries.len() - i,
    {
        let e = &m.entries[i];
        proof {
            assert(all.skip(i as int)[0] == (e.0@, e.1@));
            assert(all.skip(i as int).drop_first() =~= all.skip(i + 1));
        }
        let wrong = P::find_wrong(e.0.as_str(), &e.1);
        if wrong.is_some() {
            return wrong;
        }
        i += 1;
    }
    None
}

fn find_placed<P: Members>(names: &Vec<&'static str>, xs: &Vec<Json>) -> (r: Option<String>)
    ensures
        opt_text_view(r) == first_placed::<P>(names_view(names@), list_view(xs@)),
{
    let ghost ns = names_view(names@);
    let ghost all = list_view(xs@);
    let mut i: usize = 0;
    proof {
        assert(ns.skip(0) =~= ns);
        assert(all.skip(0) =~= all);
    }
    while i < names.len() && i < xs.len()
        invariant
            i <= names@.len(),
            i <= xs@.len(),
            ns == names_view(names@),
            all == list_view(xs@),
            first_placed::<P>(ns, all) == first_placed::<P>(ns.skip(i as int), all.skip(i as int)),
        decreases names.len() - i,
    {
        proof {
            assert(ns.skip(i as int)[0] == names@[i as int]@);
            assert(ns.skip(i as int).drop_first() =~= ns.skip(i + 1));
            assert(all.skip(i as int)[0] == xs@[i as int]@);
            assert(all.skip(i as int).drop_first() =~= all.skip(i + 1));
        }
        let wrong = P::find_wrong(names[i], &xs[i]);
        if wrong.is_some() {
            return wrong;
        }
        i += 1;
    }
    None
}

/// Names by what they hold.
pub open spec fn names_view(names: Seq<&'static str>) -> Seq<Seq<char>> {
    Seq::new(names.len(), |i: int| names[i]@)
}

fn find_map_fault<P: Members>(v: &Json) -> (r: Option<String>)
    ensures
        opt_text_view(r) == map_fault::<P>(v@),
{
    match v {
        Json::Object(m) => {
            proof {
                lemma_object_view(*m);
            }
            find_first::<P>(m)
        },
        _ => Some(clash_text(v, "a map")),
    }
}

fn find_block_fault<P: Members>(name: &str, names: &Vec<&'static str>, v: &Json) -> (r: Option<String>)
    ensures
        opt_text_view(r) == block_fault::<P>(name@, names_view(names@), v@),
{
    match v {
        Json::Object(m) => {
            proof {
                lemma_object_view(*m);
            }
            find_first::<P>(m)
        },
        Json::Array(xs) => {
            proof {
                lemma_array_view(*xs);
            }
            let wrong = find_placed::<P>(names, xs);
            if wrong.is_some() {
                return wrong;
            }
            if xs.len() > names.len() {
                Some(
                    text::join3(
                        "invalid length ",
                        text::decimal_text(xs.len()).as_str(),
                        ", expected fewer elements in array",
                    ),
                )
            } else {
                None
            }
        },
        _ => {
            let want = text::join2("struct ", name);
            Some(clash_text(v, want.as_str()))
        },
    }
}

// ── The blocks of a workspace ──────────────────────────────────────

/// Members that may be anything.
pub struct Anything;

impl Members for Anything {
    open spec fn wrong(key: Seq<char>, v: JsonV) -> Option<Seq<char>> {
        None
    }

    fn find_wrong(key: &str, v: &Json) -> (r: Option<String>) {
        None
    }
}

/// Members that are objects.
pub struct Blocks;

impl Members for Blocks {
    open spec fn wrong(key: Seq<char>, v: JsonV) -> Option<Seq<char>> {
        if v is Object {
            None
        } else {
            Some(clash(v, "a map"@))
        }
    }

    fn find_wrong(key: &str, v: &Json) -> (r: Option<String>) {
        match v {
            Json::Object(_) => None,
            _ => Some(clash_text(v, "a map")),
        }
    }
}

/// Members that are configurations of providers.
pub struct Providers;

impl Members for Providers {
    open spec fn wrong(key: Seq<char>, v: JsonV) -> Option<Seq<char>> {
        if v is Object {
            None
        } else {
            Some(clash(v, "struct ProviderConfig"@))
        }
    }

    fn find_wrong(key: &str, v: &Json) -> (r: Option<String>) {
        match v {
            Json::Object(_) => None,
            _ => Some(clash_text(v, "struct ProviderConfig")),
        }
    }
}

/// The members of a provider that a workspace asks for.
pub open spec fn required_fields() -> Seq<Field> {
    seq![
        Field { name: "source", shape: Shape::Text, in_object: true, in_array: true },
        Field { name: "version", shape: Shape::OptionalText, in_object: false, in_array: false },
    ]
}

fn required_field_list() -> (r: Vec<Field>)
    ensures
        r@ == required_fields(),
{
    let r = vec![
        Field { name: "source", shape: Shape::Text, in_object: true, in_array: true },
        Field { name: "version", shape: Shape::OptionalText, in_object: false, in_array: false },
    ];
    proof {
        assert(r@ =~= required_fields());
    }
    r
}

/// Members that are providers that a workspace asks for.
pub struct Required;

impl Members for Required {
    open spec fn wrong(key: Seq<char>, v: JsonV) -> Option<Seq<char>> {
        decode::record_fault("RequiredProvider"@, required_fields(), v)
    }

    fn find_wrong(key: &str, v: &Json) -> (r: Option<String>) {
        decode::find_record_fault("RequiredProvider", &required_field_list(), v)
    }
}

/// The members of an output.
pub open spec fn output_fields() -> Seq<Field> {
    seq![
        Field { name: "value", shape: Shape::Any, in_object: true, in_array: true },
        Field { name: "sensitive", shape: Shape::Flag, in_object: false, in_array: false },
        Field { name: "description", shape: Shape::OptionalText, in_object: false, in_array: false },
    ]
}

fn output_field_list() -> (r: Vec<Field>)
    ensures
        r@ == output_fields(),
{
    let r = vec![
        Field { name: "value", shape: Shape::Any, in_object: true, in_array: true },
        Field { name: "sensitive", shape: Shape::Flag, in_object: false, in_array: false },
        Field { name: "description", shape: Shape::OptionalText, in_object: false, in_array: false },
    ];
    proof {
        assert(r@ =~= output_fields());
    }
    r
}

/// Members that are outputs.
pub struct Outputs;

impl Members for Outputs {
    open spec fn wrong(key: Seq<char>, v: JsonV) -> Option<Seq<char>> {
        decode::record_fault("OutputDecl"@, output_fields(), v)
    }

    fn find_wrong(key: &str, v: &Json) -> (r: Option<String>) {
        decode::find_record_fault("OutputDecl", &output_field_list(), v)
    }
}

/// The members of the `terraform` block.
pub struct Settings;

impl Members for Settings {
    open spec fn wrong(key: Seq<char>, v: JsonV) -> Option<Seq<char>> {
        if key == "required_providers"@ {
            map_fault::<Required>(v)
        } else if key == "backend"@ {
            map_fault::<Anything>(v)
        } else if key == "required_version"@ {
            fault(v, Shape::OptionalText)
        } else {
            None
        }
    }

    fn find_wrong(key: &str, v: &Json) -> (r: Option<String>) {
        if text::same(key, "required_providers") {
            find_map_fault::<Required>(v)
        } else if text::same(key, "backend") {
            find_map_fault::<Anything>(v)
        } else if text::same(key, "required_version") {
            find_fault(v, Shape::OptionalText)
        } else {
            None
        }
    }
}

pub open spec fn setting_names() -> Seq<Seq<char>> {
    seq!["required_providers"@, "backend"@, "required_version"@]
}

/// The blocks of a workspace.
pub struct Workspace;

impl Members for Workspace {
    open spec fn wrong(key: Seq<char>, v: JsonV) -> Option<Seq<char>> {
        if key == "terraform"@ {
            block_fault::<Settings>("TerraformBlock"@, setting_names(), v)
        } else if key == "provider"@ {
            map_fault::<Providers>(v)
        } else if key == "resource"@ {
            map_fault::<Blocks>(v)
        } else if key == "data"@ {
            map_fault::<Blocks>(v)
        } else if key == "output"@ {
            map_fault::<Outputs>(v)
        } else if key == "module"@ {
            map_fault::<Anything>(v)
        } else {
            None
        }
    }

    fn find_wrong(key: &str, v: &Json) -> (r: Option<String>) {
        if text::same(key, "terraform") {
            let names = vec!["required_providers", "backend", "required_version"];
            proof {
                assert(names_view(names@) =~= setting_names());
            }
            find_block_fault::<Settings>("TerraformBlock", &names, v)
        } else if text::same(key, "provider") {
            find_map_fault::<Providers>(v)
        } else if text::same(key, "resource") {
            find_map_fault::<Blocks>(v)
        } else if text::same(key, "data") {
            find_map_fault::<Blocks>(v)
        } else if text::same(key, "output") {
            find_map_fault::<Outputs>(v)
        } else if text::same(key, "module") {
            find_map_fault::<Anything>(v)
        } else {
            None
        }
    }
}

pub open spec fn block_names() -> Seq<Seq<char>> {
    seq!["terraform"@, "provider"@, "resource"@, "data"@, "output"@, "module"@]
}

/// What is wrong with JSON that is no workspace; nothing where it is one.
pub open spec fn config_fault(v: JsonV) -> Option<Seq<char>> {
    block_fault::<Workspace>("Config"@, block_names(), v)
}

/// What is wrong with JSON that is no workspace; nothing where it is one.
pub fn find_config_fault(v: &Json) -> (r: Option<String>)
    ensures
        opt_text_view(r) == config_fault(v@),
{
    let names = vec!["terraform", "provider", "resource", "data", "output", "module"];
    proof {
        assert(names_view(names@) =~= block_names());
    }
    find_block_fault::<Workspace>("Config", &names, v)
}

// ── What is without fault has its shape ────────────────────────────

proof fn lemma_first_clean<P: Members>(m: Seq<(Seq<char>, JsonV)>, i: int)
    requires
        first_wrong::<P>(m) is None,
        0 <= i < m.len(),
    ensures
        P::wrong(m[i].0, m[i].1) is None,
    decreases m.len(),
{
    if i > 0 {
        lemma_first_clean::<P>(m.drop_first(), i - 1);
    }
}

proof fn lemma_placed_clean<P: Members>(names: Seq<Seq<char>>, xs: Seq<JsonV>, i: int)
    requires
        first_placed::<P>(names, xs) is None,
        0 <= i < names.len(),
        i < xs.len(),
    ensures
        P::wrong(names[i], xs[i]) is None,
    decreases names.len(),
{
    if i > 0 {
        lemma_placed_clean::<P>(names.drop_first(), xs.drop_first(), i - 1);
    }
}

/// A member of a record without fault may stand where it does.
proof fn lemma_member_clean<P: Members>(name: Seq<char>, names: Seq<Seq<char>>, v: JsonV, i: int)
    requires
        block_fault::<P>(name, names, v) is None,
        0 <= i < names.len(),
    ensures
        is_record(v, names.len()),
        field(v, i, names[i]) matches Some(x) ==> P::wrong(names[i], x) is None,
{
    match v {
        JsonV::Object(m) => {
            if ordmap::lookup(m, names[i]) is Some {
                let j = ordmap::lemma_lookup_index(m, names[i]);
                lemma_first_clean::<P>(m, j);
            }
        },
        JsonV::Array(xs) => {
            if i < xs.len() {
                lemma_placed_clean::<P>(names, xs, i);
            }
        },
        _ => {},
    }
}

/// A map without fault has members of the shape that its members are bound
/// to.
proof fn lemma_map_clean<P: Members>(v: JsonV, ok: spec_fn(JsonV) -> bool)
    requires
        map_fault::<P>(v) is None,
        forall|k: Seq<char>, x: JsonV| (#[trigger] P::wrong(k, x)) is None ==> ok(x),
    ensures
        map_ok(Some(v), ok),
{
    if let JsonV::Object(m) = v {
        assert forall|i: int| #![trigger m[i]] 0 <= i < m.len() implies ok(m[i].1) by {
            lemma_first_clean::<P>(m, i);
        }
    }
}

proof fn lemma_required_clean(v: JsonV)
    requires
        decode::record_fault("RequiredProvider"@, required_fields(), v) is None,
    ensures
        required_ok()(v),
{
    reveal_strlit("source");
    reveal_strlit("version");
    let fs = required_fields();
    assert("source"@.len() != "version"@.len());
    reveal_with_fuel(decode::shape_of, 3);
    assert(fs.drop_first()[0] == fs[1]);
    decode::lemma_part_shape("RequiredProvider"@, fs, v, 0);
    decode::lemma_part_shape("RequiredProvider"@, fs, v, 1);
    assert(decode::part(fs, v, 0) == field(v, 0, "source"@));
    assert(decode::part(fs, v, 1) == field(v, 1, "version"@));
}

proof fn lemma_output_clean(v: JsonV)
    requires
        decode::record_fault("OutputDecl"@, output_fields(), v) is None,
    ensures
        output_ok()(v),
{
    reveal_strlit("value");
    reveal_strlit("sensitive");
    reveal_strlit("description");
    let fs = output_fields();
    assert("value"@.len() == 5 && "sensitive"@.len() == 9 && "description"@.len() == 11);
    reveal_with_fuel(decode::shape_of, 4);
    assert(fs.drop_first()[0] == fs[1]);
    assert(fs.drop_first().drop_first()[0] == fs[2]);
    decode::lemma_part_shape("OutputDecl"@, fs, v, 0);
    decode::lemma_part_shape("OutputDecl"@, fs, v, 1);
    decode::lemma_part_shape("OutputDecl"@, fs, v, 2);
    assert(decode::part(fs, v, 0) == field(v, 0, "value"@));
    assert(decode::part(fs, v, 1) == field(v, 1, "sensitive"@));
    assert(decode::part(fs, v, 2) == field(v, 2, "description"@));
}

proof fn lemma_settings_clean(v: JsonV)
    requires
        block_fault::<Settings>("TerraformBlock"@, setting_names(), v) is None,
    ensures
        terraform_ok(Some(v)),
{
    reveal_strlit("required_providers");
    reveal_strlit("backend");
    reveal_strlit("required_version");
    let ns = setting_names();
    assert("required_providers"@.len() == 18 && "backend"@.len() == 7 && "required_version"@.len() == 16);
    lemma_member_clean::<Settings>("TerraformBlock"@, ns, v, 0);
    lemma_member_clean::<Settings>("TerraformBlock"@, ns, v, 1);
    lemma_member_clean::<Settings>("TerraformBlock"@, ns, v, 2);
    if let Some(x) = field(v, 0, "required_providers"@) {
        assert(Settings::wrong("required_providers"@, x) == map_fault::<Required>(x));
        assert forall|k: Seq<char>, y: JsonV| (#[trigger] Required::wrong(k, y)) is None implies required_ok()(
            y,
        ) by {
            lemma_required_clean(y);
        }
        lemma_map_clean::<Required>(x, required_ok());
    }
    if let Some(x) = field(v, 1, "backend"@) {
        assert(Settings::wrong("backend"@, x) == map_fault::<Anything>(x));
        lemma_map_clean::<Anything>(x, any_ok());
    }
    if let Some(x) = field(v, 2, "required_version"@) {
        assert(Settings::wrong("required_version"@, x) == fault(x, Shape::OptionalText));
    }
}

/// JSON without fault is a workspace.
pub proof fn lemma_no_fault_is_shaped(v: JsonV)
    requires
        config_fault(v) is None,
    ensures
        well_shaped(v),
{
    reveal_strlit("terraform");
    reveal_strlit("provider");
    reveal_strlit("resource");
    reveal_strlit("data");
    reveal_strlit("output");
    reveal_strlit("module");
    let ns = block_names();
    assert("terraform"@.len() == 9 && "provider"@.len() == 8 && "resource"@.len() == 8 && "data"@.len()
        == 4 && "output"@.len() == 6 && "module"@.len() == 6);
    assert("provider"@[0] == 'p' && "resource"@[0] == 'r');
    assert("output"@[0] == 'o' && "module"@[0] == 'm');
    assert forall|i: int| 0 <= i < 6 implies (field(v, i, #[trigger] ns[i]) matches Some(x)
        ==> Workspace::wrong(ns[i], x) is None) by {
        lemma_member_clean::<Workspace>("Config"@, ns, v, i);
    }
    lemma_member_clean::<Workspace>("Config"@, ns, v, 0);
    if let Some(x) = field(v, 0, ns[0]) {
        lemma_settings_clean(x);
    }
    if let Some(x) = field(v, 1, ns[1]) {
        lemma_map_clean::<Providers>(x, object_ok());
    }
    if let Some(x) = field(v, 2, ns[2]) {
        lemma_map_clean::<Blocks>(x, object_ok());
    }
    if let Some(x) = field(v, 3, ns[3]) {
        lemma_map_clean::<Blocks>(x, object_ok());
    }
    if let Some(x) = field(v, 4, ns[4]) {
        assert forall|k: Seq<char>, y: JsonV| (#[trigger] Outputs::wrong(k, y)) is None implies output_ok()(
            y,
        ) by {
            lemma_output_clean(y);
        }
        lemma_map_clean::<Outputs>(x, output_ok());
    }
    if let Some(x) = field(v, 5, ns[5]) {
        lemma_map_clean::<Anything>(x, any_ok());
    }
}

/// The fault of an object is that of its first member that has one, and there
/// is none where no member has.
pub proof fn law_first_wrong_member<P: Members>(m: Seq<(Seq<char>, JsonV)>, i: int)
    ensures
        0 <= i < m.len() && P::wrong(m[i].0, m[i].1) is Some && (forall|j: int|
            0 <= j < i ==> P::wrong((#[trigger] m[j]).0, m[j].1) is None) ==> first_wrong::<P>(m)
            == P::wrong(m[i].0, m[i].1),
        (forall|j: int| 0 <= j < m.len() ==> P::wrong((#[trigger] m[j]).0, m[j].1) is None)
            ==> first_wrong::<P>(m) is None,
    decreases m.len(),
{
    if m.len() > 0 {
        let t = m.drop_first();
        law_first_wrong_member::<P>(t, i - 1);
        assert forall|j: int| 0 <= j < t.len() implies #[trigger] t[j] == m[j + 1] by {}
        if 0 < i < m.len() && P::wrong(m[i].0, m[i].1) is Some && (forall|j: int|
            0 <= j < i ==> P::wrong((#[trigger] m[j]).0, m[j].1) is None) {
            assert(P::wrong(m[0].0, m[0].1) is None);
            assert(t[i - 1] == m[i]);
            assert forall|j: int| 0 <= j < i - 1 implies P::wrong(
                (#[trigger] t[j]).0,
                t[j].1,
            ) is None by {
                assert(P::wrong(m[j + 1].0, m[j + 1].1) is None);
            }
        }
        if forall|j: int| 0 <= j < m.len() ==> P::wrong((#[trigger] m[j]).0, m[j].1) is None {
            assert(P::wrong(m[0].0, m[0].1) is None);
            assert forall|j: int| 0 <= j < t.len() implies P::wrong(
                (#[trigger] t[j]).0,
                t[j].1,
            ) is None by {
                assert(P::wrong(m[j + 1].0, m[j + 1].1) is None);
            }
        }
    }
}

/// Elements are held against the names in their places: the fault is that of
/// the first one that has one.
pub proof fn law_first_wrong_element<P: Members>(names: Seq<Seq<char>>, xs: Seq<JsonV>, i: int)
    ensures
        0 <= i < xs.len() && i < names.len() && P::wrong(names[i], xs[i]) is Some && (forall|j: int|
            0 <= j < i ==> P::wrong(names[j], #[trigger] xs[j]) is None) ==> first_placed::<P>(
            names,
            xs,
        ) == P::wrong(names[i], xs[i]),
        (forall|j: int|
            0 <= j < xs.len() && j < names.len() ==> P::wrong(names[j], #[trigger] xs[j]) is None)
            ==> first_placed::<P>(names, xs) is None,
    decreases names.len(),
{
    if names.len() > 0 && xs.len() > 0 {
        let f = names.drop_first();
        let t = xs.drop_first();
        law_first_wrong_element::<P>(f, t, i - 1);
        assert forall|j: int| 0 <= j < t.len() implies #[trigger] t[j] == xs[j + 1] by {}
        if 0 < i < xs.len() && i < names.len() && P::wrong(names[i], xs[i]) is Some && (forall|
            j: int,
        |
            0 <= j < i ==> P::wrong(names[j], #[trigger] xs[j]) is None) {
            assert(P::wrong(names[0], xs[0]) is None);
            assert(t[i - 1] == xs[i] && f[i - 1] == names[i]);
            assert forall|j: int| 0 <= j < i - 1 implies P::wrong(f[j], #[trigger] t[j]) is None by {
                assert(P::wrong(names[j + 1], xs[j + 1]) is None);
            }
        }
        if forall|j: int|
            0 <= j < xs.len() && j < names.len() ==> P::wrong(names[j], #[trigger] xs[j]) is None {
            assert(P::wrong(names[0], xs[0]) is None);
            assert forall|j: int| 0 <= j < t.len() && j < f.len() implies P::wrong(
                f[j],
                #[trigger] t[j],
            ) is None by {
                assert(P::wrong(names[j + 1], xs[j + 1]) is None);
            }
        }
    }
}

/// A member that no block has the name of is not held against anything, and a
/// configuration that is neither object nor array has a fault.
pub proof fn law_unknown_blocks_are_let_be(key: Seq<char>, v: JsonV)
    ensures
        key != "terraform"@ && key != "provider"@ && key != "resource"@ && key != "data"@ && key
            != "output"@ && key != "module"@ ==> Workspace::wrong(key, v) is None,
        !(v is Object) && !(v is Array) ==> config_fault(v) is Some,
        v matches JsonV::Array(xs) ==> (xs.len() > 6 ==> config_fault(v) is Some),
{
}

/// An array stands for a block where its elements have no fault and are no
/// more than the block has members; an object where its members have none.
pub proof fn law_blocks_without_fault<P: Members>(name: Seq<char>, names: Seq<Seq<char>>, v: JsonV)
    ensures
        v matches JsonV::Object(m) ==> block_fault::<P>(name, names, v) == first_wrong::<P>(m)
            && map_fault::<P>(v) == first_wrong::<P>(m),
        v matches JsonV::Array(xs) ==> (block_fault::<P>(name, names, v) is None <==> first_placed::<
            P,
        >(names, xs) is None && xs.len() <= names.len()),
        v matches JsonV::Array(xs) ==> (first_placed::<P>(names, xs) is Some ==> block_fault::<P>(
            name,
            names,
            v,
        ) == first_placed::<P>(names, xs)),
        !(v is Object) && !(v is Array) ==> block_fault::<P>(name, names, v) is Some,
        !(v is Object) ==> map_fault::<P>(v) is Some,
{
}

} // verus!
