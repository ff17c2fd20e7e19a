//! Reading records out of JSON: an object by the names of its members, or an
//! array by their places.
use vstd::prelude::*;
use crate::json;
use crate::json::{lemma_array_view, lemma_object_view, list_view, object_view, Json, JsonV, Number};
use crate::ordmap;
use crate::ordmap::{lookup, StrMap};
use crate::text;

verus! {

/// What a value is, in words.
pub open spec fn described(v: JsonV) -> Seq<char> {
    match v {
        JsonV::Null => "null"@,
        JsonV::Bool(_) => "boolean `"@ + json::json_text(v) + "`"@,
        JsonV::Number(Number::Float(_)) => "floating point `"@ + json::json_text(v) + "`"@,
        JsonV::Number(_) => "integer `"@ + json::json_text(v) + "`"@,
        JsonV::String(s) => "string "@ + text::str_debug(s),
        JsonV::Array(_) => "sequence"@,
        JsonV::Object(_) => "map"@,
    }
}

/// What a value is, in words.
pub fn describe(v: &Json) -> (r: String)
    ensures
        r@ == described(v@),
{
    match v {
        Json::Null => "null".to_owned(),
        Json::Bool(_) => text::join3("boolean `", v.text().as_str(), "`"),
        Json::Number(Number::Float(_)) => text::join3("floating point `", v.text().as_str(), "`"),
        Json::Number(_) => text::join3("integer `", v.text().as_str(), "`"),
        Json::String(s) => text::join2("string ", text::debug_text(s.as_str()).as_str()),
        Json::Array(_) => "sequence".to_owned(),
        Json::Object(_) => "map".to_owned(),
    }
}

/// The message for a value of another type than the one wanted.
pub open spec fn clash(v: JsonV, want: Seq<char>) -> Seq<char> {
    "invalid type: "@ + described(v) + ", expected "@ + want
}

/// The message for a value of another type than the one wanted.
pub fn clash_text(v: &Json, want: &str) -> (r: String)
    ensures
        r@ == clash(v@, want@),
{
    text::join4("invalid type: ", describe(v).as_str(), ", expected ", want)
}

/// The types that a member can have.
#[derive(Clone, Copy, Debug, PartialEq, Eq, Structural)]
pub enum Shape {
    Text,
    /// A text or `null`.
    OptionalText,
    Flag,
    /// An integer below 2^32.
    Small,
    Texts,
    Any,
}

/// The message for a number that is no integer below 2^32.
pub open spec fn not_small(v: JsonV) -> Seq<char> {
    match v {
        JsonV::Number(Number::Float(_)) => clash(v, "u32"@),
        JsonV::Number(_) => "invalid value: "@ + described(v) + ", expected "@ + "u32"@,
        _ => clash(v, "u32"@),
    }
}

/// The message for the first element that is no text.
pub open spec fn text_fault(xs: Seq<JsonV>) -> Option<Seq<char>>
    decreases xs.len(),
{
    if xs.len() == 0 {
        None
    } else if xs[0] is String {
        text_fault(xs.drop_first())
    } else {
        Some(clash(xs[0], "a string"@))
    }
}

/// Why a value does not have a type; nothing where it has.
pub open spec fn fault(v: JsonV, shape: Shape) -> Option<Seq<char>> {
    match shape {
        Shape::Any => None,
        Shape::Text => if v is String {
            None
        } else {
            Some(clash(v, "a string"@))
        },
        Shape::OptionalText => if v is String || v is Null {
            None
        } else {
            Some(clash(v, "a string"@))
        },
        Shape::Flag => if v is Bool {
            None
        } else {
            Some(clash(v, "a boolean"@))
        },
        Shape::Small => match v {
            JsonV::Number(Number::PosInt(n)) => if n <= u32::MAX {
                None
            } else {
                Some(not_small(v))
            },
            _ => Some(not_small(v)),
        },
        Shape::Texts => match v {
            JsonV::Array(xs) => text_fault(xs),
            _ => Some(clash(v, "a sequence"@)),
        },
    }
}

/// The first element of a list that is no text.
fn find_text_fault(xs: &Vec<Json>) -> (r: Option<String>)
    ensures
        opt_text_view(r) == text_fault(list_view(xs@)),
{
    let ghost all = list_view(xs@);
    let mut i: usize = 0;
    proof {
        assert(all.skip(0) =~= all);
    }
    while i < xs.len()
        invariant
            i <= xs@.len(),
            all == list_view(xs@),
            text_fault(all) == text_fault(all.skip(i as int)),
        decreases xs.len() - i,
    {
        proof {
            assert(all.skip(i as int)[0] == xs@[i as int]@);
            assert(all.skip(i as int).drop_first() =~= all.skip(i + 1));
        }
        match &xs[i] {
            Json::String(_) => {},
            _ => {
                return Some(clash_text(&xs[i], "a string"));
            },
        }
        i += 1;
    }
    None
}

pub open spec fn opt_text_view(t: Option<String>) -> Option<Seq<char>> {
    match t {
        Some(s) => Some(s@),
        None => None,
    }
}

/// Why a value does not have a type; nothing where it has.
pub fn find_fault(v: &Json, shape: Shape) -> (r: Option<String>)
    ensures
        opt_text_view(r) == fault(v@, shape),
{
    match shape {
        Shape::Any => None,
        Shape::Text => match v {
            Json::String(_) => None,
            _ => Some(clash_text(v, "a string")),
        },
        Shape::OptionalText => match v {
            Json::String(_) => None,
            Json::Null => None,
            _ => Some(clash_text(v, "a string")),
        },
        Shape::Flag => match v {
            Json::Bool(_) => None,
            _ => Some(clash_text(v, "a boolean")),
        },
        Shape::Small => match v {
            Json::Number(Number::PosInt(n)) => if *n <= u32::MAX as u64 {
                None
            } else {
                Some(text::join4("invalid value: ", describe(v).as_str(), ", expected ", "u32"))
            },
            Json::Number(Number::NegInt(_)) => Some(
                text::join4("invalid value: ", describe(v).as_str(), ", expected ", "u32"),
            ),
            _ => Some(clash_text(v, "u32")),
        },
        Shape::Texts => match v {
            Json::Array(xs) => {
                proof {
                    lemma_array_view(*xs);
                }
                find_text_fault(xs)
            },
            _ => Some(clash_text(v, "a sequence")),
        },
    }
}

/// A member of a record.
#[derive(Clone, Copy, Debug)]
pub struct Field {
    pub name: &'static str,
    pub shape: Shape,
    /// Whether an object must have it.
    pub in_object: bool,
    /// Whether an array must reach as far as it.
    pub in_array: bool,
}

/// The type of the member `key`, where the record has it.
pub open spec fn shape_of(fields: Seq<Field>, key: Seq<char>) -> Option<Shape>
    decreases fields.len(),
{
    if fields.len() == 0 {
        None
    } else if fields[0].name@ == key {
        Some(fields[0].shape)
    } else {
        shape_of(fields.drop_first(), key)
    }
}

/// The fault of a member, where the record has it; other members are passed
/// over.
pub open spec fn member_fault(fields: Seq<Field>, e: (Seq<char>, JsonV)) -> Option<Seq<char>> {
    match shape_of(fields, e.0) {
        Some(shape) => fault(e.1, shape),
        None => None,
    }
}

/// The first fault among members, in their order.
pub open spec fn members_fault(fields: Seq<Field>, m: Seq<(Seq<char>, JsonV)>) -> Option<Seq<char>>
    decreases m.len(),
{
    if m.len() == 0 {
        None
    } else {
        match member_fault(fields, m[0]) {
            Some(e) => Some(e),
            None => members_fault(fields, m.drop_first()),
        }
    }
}

/// The message for the first field that an object must have and lacks.
pub open spec fn missing(fields: Seq<Field>, m: Seq<(Seq<char>, JsonV)>) -> Option<Seq<char>>
    decreases fields.len(),
{
    if fields.len() == 0 {
        None
    } else if fields[0].in_object && lookup(m, fields[0].name@) is None {
        Some("missing field `"@ + fields[0].name@ + "`"@)
    } else {
        missing(fields.drop_first(), m)
    }
}

/// The first fault among elements read by their places.
pub open spec fn places_fault(fields: Seq<Field>, xs: Seq<JsonV>) -> Option<Seq<char>>
    decreases fields.len(),
{
    if fields.len() == 0 || xs.len() == 0 {
        None
    } else {
        match fault(xs[0], fields[0].shape) {
            Some(e) => Some(e),
            None => places_fault(fields.drop_first(), xs.drop_first()),
        }
    }
}

/// The first place from `n` on that an array must reach.
pub open spec fn needed_from(fields: Seq<Field>, n: nat) -> Option<nat>
    decreases fields.len() - n,
{
    if n >= fields.len() {
        None
    } else if fields[n as int].in_array {
        Some(n)
    } else {
        needed_from(fields, n + 1)
    }
}

/// The message for an array of the wrong length, for a record of this name.
pub open spec fn length_fault(name: Seq<char>, fields: Seq<Field>, n: nat) -> Option<Seq<char>> {
    if n > fields.len() {
        Some("invalid length "@ + text::decimal(n) + ", expected fewer elements in array"@)
    } else {
        match needed_from(fields, n) {
            Some(k) => Some(
                "invalid length "@ + text::decimal(k) + ", expected struct "@ + name + " with "@
                    + text::decimal(fields.len()) + " elements"@,
            ),
            None => None,
        }
    }
}

/// Why a value is no record of this name; nothing where it is one.
pub open spec fn record_fault(name: Seq<char>, fields: Seq<Field>, v: JsonV) -> Option<Seq<char>> {
    match v {
        JsonV::Object(m) => match members_fault(fields, m) {
            Some(e) => Some(e),
            None => missing(fields, m),
        },
        JsonV::Array(xs) => match places_fault(fields, xs) {
            Some(e) => Some(e),
            None => length_fault(name, fields, xs.len()),
        },
        _ => Some(clash(v, "struct "@ + name)),
    }
}

/// The member of a record at place `i`: by its name in an object, by its
/// place in an array.
pub open spec fn part(fields: Seq<Field>, v: JsonV, i: int) -> Option<JsonV> {
    match v {
        JsonV::Object(m) => lookup(m, fields[i].name@),
        JsonV::Array(xs) => if 0 <= i < xs.len() {
            Some(xs[i])
        } else {
            None
        },
        _ => None,
    }
}

/// The type of a member, where the record has it.
fn find_shape(fields: &Vec<Field>, key: &str) -> (r: Option<Shape>)
    ensures
        r == shape_of(fields@, key@),
{
    let mut i: usize = 0;
    proof {
        assert(fields@.skip(0) =~= fields@);
    }
    while i < fields.len()
        invariant
            i <= fields@.len(),
            shape_of(fields@, key@) == shape_of(fields@.skip(i as int), key@),
        decreases fields.len() - i,
    {
        proof {
            assert(fields@.skip(i as int)[0] == fields@[i as int]);
            assert(fields@.skip(i as int).drop_first() =~= fields@.skip(i + 1));
        }
        if text::same(fields[i].name, key) {
            return Some(fields[i].shape);
        }
        i += 1;
    }
    None
}

fn find_members_fault(fields: &Vec<Field>, m: &StrMap<Json>) -> (r: Option<String>)
    ensures
        opt_text_view(r) == members_fault(fields@, object_view(m@)),
{
    let ghost all = object_view(m@);
    let mut i: usize = 0;
    proof {
        assert(all.skip(0) =~= all);
    }
    while i < m.entries.len()
        invariant
            i <= m.entries@.len(),
            all == object_view(m@),
            members_fault(fields@, all) == members_fault(fields@, all.skip(i as int)),
        decreases m.entries.len() - i,
    {
        let e = &m.entries[i];
        proof {
            assert(all.skip(i as int)[0] == (e.0@, e.1@));
            assert(all.skip(i as int).drop_first() =~= all.skip(i + 1));
        }
        match find_shape(fields, e.0.as_str()) {
            Some(shape) => match find_fault(&e.1, shape) {
                Some(f) => {
                    return Some(f);
                },
                None => {},
            },
            None => {},
        }
        i += 1;
    }
    None
}

fn find_missing(fields: &Vec<Field>, m: &StrMap<Json>) -> (r: Option<String>)
    ensures
        opt_text_view(r) == missing(fields@, object_view(m@)),
{
    let ghost all = object_view(m@);
    let mut i: usize = 0;
    proof {
        assert(fields@.skip(0) =~= fields@);
    }
    while i < fields.len()
        invariant
            i <= fields@.len(),
            all == object_view(m@),
            missing(fields@, all) == missing(fields@.skip(i as int), all),
        decreases fields.len() - i,
    {
        proof {
            assert(fields@.skip(i as int)[0] == fields@[i as int]);
            assert(fields@.skip(i as int).drop_first() =~= fields@.skip(i + 1));
            ordmap::lemma_map_vals_lookup(m@, |v: Json| v@, fields@[i as int].name@);
        }
        if fields[i].in_object && !m.contains_key(fields[i].name) {
            return Some(text::join3("missing field `", fields[i].name, "`"));
        }
        i += 1;
    }
    None
}

fn find_places_fault(fields: &Vec<Field>, xs: &Vec<Json>) -> (r: Option<String>)
    ensures
        opt_text_view(r) == places_fault(fields@, list_view(xs@)),
{
    let ghost all = list_view(xs@);
    let mut i: usize = 0;
    proof {
        assert(fields@.skip(0) =~= fields@);
        assert(all.skip(0) =~= all);
    }
    while i < fields.len() && i < xs.len()
        invariant
            i <= fields@.len(),
            i <= xs@.len(),
            all == list_view(xs@),
            places_fault(fields@, all) == places_fault(fields@.skip(i as int), all.skip(i as int)),
        decreases fields.len() - i,
    {
        proof {
            assert(fields@.skip(i as int)[0] == fields@[i as int]);
            assert(fields@.skip(i as int).drop_first() =~= fields@.skip(i + 1));
            assert(all.skip(i as int)[0] == xs@[i as int]@);
            assert(all.skip(i as int).drop_first() =~= all.skip(i + 1));
        }
        match find_fault(&xs[i], fields[i].shape) {
            Some(f) => {
                return Some(f);
            },
            None => {},
        }
        i += 1;
    }
    None
}

fn find_length_fault(name: &str, fields: &Vec<Field>, n: usize) -> (r: Option<String>)
    ensures
        opt_text_view(r) == length_fault(name@, fields@, n as nat),
{
    if n > fields.len() {
        return Some(
            text::join3(
                "invalid length ",
                text::decimal_text(n).as_str(),
                ", expected fewer elements in array",
            ),
        );
    }
    let mut k: usize = n;
    while k < fields.len()
        invariant
            n <= k <= fields@.len(),
            needed_from(fields@, n as nat) == needed_from(fields@, k as nat),
        decreases fields.len() - k,
    {
        if fields[k].in_array {
            let a = text::join4(
                "invalid length ",
                text::decimal_text(k).as_str(),
                ", expected struct ",
                name,
            );
            return Some(
                text::join4(a.as_str(), " with ", text::decimal_text(fields.len()).as_str(), " elements"),
            );
        }
        k += 1;
    }
    None
}

/// Why a value is no record of this name; nothing where it is one.
pub fn find_record_fault(name: &str, fields: &Vec<Field>, v: &Json) -> (r: Option<String>)
    ensures
        opt_text_view(r) == record_fault(name@, fields@, v@),
{
    match v {
        Json::Object(m) => {
            proof {
                lemma_object_view(*m);
            }
            match find_members_fault(fields, m) {
                Some(e) => Some(e),
                None => find_missing(fields, m),
            }
        },
        Json::Array(xs) => {
            proof {
                lemma_array_view(*xs);
            }
            match find_places_fault(fields, xs) {
                Some(e) => Some(e),
                None => {
                    find_length_fault(name, fields, xs.len())
                },
            }
        },
        _ => {
            let want = text::join2("struct ", name);
            Some(clash_text(v, want.as_str()))
        },
    }
}

/// The member of a record at a place.
pub fn part_of<'a>(fields: &Vec<Field>, v: &'a Json, i: usize) -> (r: Option<&'a Json>)
    requires
        i < fields@.len(),
    ensures
        json::opt_view(r) == part(fields@, v@, i as int),
{
    match v {
        Json::Object(_) => v.get(fields[i].name),
        Json::Array(_) => v.at(i),
        _ => None,
    }
}

/// What a part that has been found to be without fault is known to be.
pub proof fn lemma_part_shape(name: Seq<char>, fields: Seq<Field>, v: JsonV, i: int)
    requires
        0 <= i < fields.len(),
        record_fault(name, fields, v) is None,
        shape_of(fields, fields[i].name@) == Some(fields[i].shape),
    ensures
        part(fields, v, i) matches Some(x) ==> fault(x, fields[i].shape) is None,
        part(fields, v, i) is None ==> !fields[i].in_object || !fields[i].in_array,
        v is Object && part(fields, v, i) is None ==> !fields[i].in_object,
{
    match v {
        JsonV::Object(m) => {
            if lookup(m, fields[i].name@) is Some {
                let j = ordmap::lemma_lookup_index(m, fields[i].name@);
                lemma_members_clean(fields, m, j);
            }
            lemma_missing(fields, m, i);
        },
        JsonV::Array(xs) => {
            if i < xs.len() {
                lemma_places_clean(fields, xs, i);
            } else {
                lemma_needed_from(fields, xs.len(), i);
            }
        },
        _ => {},
    }
}

proof fn lemma_members_clean(fields: Seq<Field>, m: Seq<(Seq<char>, JsonV)>, j: int)
    requires
        members_fault(fields, m) is None,
        0 <= j < m.len(),
    ensures
        member_fault(fields, m[j]) is None,
    decreases m.len(),
{
    if j > 0 {
        lemma_members_clean(fields, m.drop_first(), j - 1);
    }
}

proof fn lemma_missing(fields: Seq<Field>, m: Seq<(Seq<char>, JsonV)>, i: int)
    requires
        missing(fields, m) is None,
        0 <= i < fields.len(),
    ensures
        lookup(m, fields[i].name@) is None ==> !fields[i].in_object,
    decreases fields.len(),
{
    if i > 0 {
        lemma_missing(fields.drop_first(), m, i - 1);
    }
}

proof fn lemma_needed_from(fields: Seq<Field>, n: nat, i: int)
    requires
        needed_from(fields, n) is None,
        n <= i < fields.len(),
    ensures
        !fields[i].in_array,
    decreases i - n,
{
    if n < i {
        lemma_needed_from(fields, n + 1, i);
    }
}

proof fn lemma_places_clean(fields: Seq<Field>, xs: Seq<JsonV>, i: int)
    requires
        places_fault(fields, xs) is None,
        0 <= i < fields.len(),
        i < xs.len(),
    ensures
        fault(xs[i], fields[i].shape) is None,
    decreases fields.len(),
{
    if i > 0 {
        lemma_places_clean(fields.drop_first(), xs.drop_first(), i - 1);
    }
}

// ── The parts of a record without fault ────────────────────────────

pub open spec fn text_value(v: Option<JsonV>) -> Seq<char> {
    match v {
        Some(JsonV::String(s)) => s,
        _ => Seq::empty(),
    }
}

pub open spec fn optional_text_value(v: Option<JsonV>) -> Option<Seq<char>> {
    match v {
        Some(JsonV::String(s)) => Some(s),
        _ => None,
    }
}

pub open spec fn flag_value(v: Option<JsonV>) -> bool {
    match v {
        Some(JsonV::Bool(b)) => b,
        _ => false,
    }
}

pub open spec fn small_value(v: Option<JsonV>) -> u32 {
    match v {
        Some(JsonV::Number(Number::PosInt(n))) => n as u32,
        _ => 0,
    }
}

pub open spec fn texts_value(v: Option<JsonV>) -> Seq<Seq<char>> {
    match v {
        Some(JsonV::Array(xs)) => xs.map_values(|x: JsonV| text_value(Some(x))),
        _ => Seq::empty(),
    }
}

pub open spec fn any_value(v: Option<JsonV>) -> JsonV {
    match v {
        Some(x) => x,
        None => JsonV::Null,
    }
}

pub fn take_text(v: Option<&Json>) -> (r: String)
    ensures
        r@ == text_value(json::opt_view(v)),
{
    match v {
        Some(Json::String(s)) => s.clone(),
        _ => String::new(),
    }
}

pub fn take_optional_text(v: Option<&Json>) -> (r: Option<String>)
    ensures
        opt_text_view(r) == optional_text_value(json::opt_view(v)),
{
    match v {
        Some(Json::String(s)) => Some(s.clone()),
        _ => None,
    }
}

pub fn take_flag(v: Option<&Json>) -> (r: bool)
    ensures
        r == flag_value(json::opt_view(v)),
{
    match v {
        Some(Json::Bool(b)) => *b,
        _ => false,
    }
}

pub fn take_small(v: Option<&Json>) -> (r: u32)
    ensures
        r == small_value(json::opt_view(v)),
{
    match v {
        Some(Json::Number(Number::PosInt(n))) => *n as u32,
        _ => 0,
    }
}

pub fn take_texts(v: Option<&Json>) -> (r: Vec<String>)
    ensures
        text::texts(r@) == texts_value(json::opt_view(v)),
{
    let mut out: Vec<String> = Vec::new();
    match v {
        Some(Json::Array(xs)) => {
            proof {
                lemma_array_view(*xs);
            }
            let mut i: usize = 0;
            while i < xs.len()
                invariant
                    i <= xs@.len(),
                    out@.len() == i,
                    forall|j: int|
                        0 <= j < i ==> (#[trigger] out@[j])@ == text_value(Some(list_view(xs@)[j])),
                decreases xs.len() - i,
            {
                let s = take_text(Some(&xs[i]));
                proof {
                    assert(list_view(xs@)[i as int] == xs@[i as int]@);
                }
                out.push(s);
                i += 1;
            }
            proof {
                assert(text::texts(out@) =~= texts_value(json::opt_view(v)));
            }
        },
        _ => {
            proof {
                assert(text::texts(out@) =~= Seq::empty());
            }
        },
    }
    out
}

pub fn take_any(v: Option<&Json>) -> (r: Json)
    ensures
        r@ == any_value(json::opt_view(v)),
{
    match v {
        Some(x) => x.clone(),
        None => Json::Null,
    }
}

/// Texts as JSON.
pub open spec fn texts_json(ts: Seq<Seq<char>>) -> JsonV {
    JsonV::Array(ts.map_values(|t: Seq<char>| JsonV::String(t)))
}

/// Texts as JSON.
pub fn texts_to_json(ts: &Vec<String>) -> (r: Json)
    ensures
        r@ == texts_json(text::texts(ts@)),
{
    let mut out: Vec<Json> = Vec::new();
    let mut i: usize = 0;
    while i < ts.len()
        invariant
            i <= ts@.len(),
            out@.len() == i,
            forall|j: int| 0 <= j < i ==> (#[trigger] out@[j])@ == JsonV::String(ts@[j]@),
        decreases ts.len() - i,
    {
        out.push(Json::String(ts[i].clone()));
        i += 1;
    }
    proof {
        lemma_array_view(out);
        assert(list_view(out@) =~= text::texts(ts@).map_values(|t: Seq<char>| JsonV::String(t)));
    }
    Json::Array(out)
}

/// Texts come back out of their JSON.
pub proof fn lemma_texts_json(ts: Seq<Seq<char>>)
    ensures
        fault(texts_json(ts), Shape::Texts) is None,
        texts_value(Some(texts_json(ts))) == ts,
{
    let xs = ts.map_values(|t: Seq<char>| JsonV::String(t));
    lemma_no_text_fault(xs);
    assert(texts_value(Some(texts_json(ts))) =~= ts);
}

proof fn lemma_no_text_fault(xs: Seq<JsonV>)
    requires
        forall|i: int| #![trigger xs[i]] 0 <= i < xs.len() ==> xs[i] is String,
    ensures
        text_fault(xs) is None,
    decreases xs.len(),
{
    if xs.len() > 0 {
        assert(xs[0] is String);
        assert forall|i: int| #![trigger xs.drop_first()[i]] 0 <= i < xs.drop_first().len() implies xs.drop_first()[i] is String by {
            assert(xs.drop_first()[i] == xs[i + 1]);
        }
        lemma_no_text_fault(xs.drop_first());
    }
}

/// A value has a shape where it is of that type; a list of texts holds texts
/// alone, and a small number fits 32 bits.
pub proof fn law_shapes(v: JsonV)
    ensures
        fault(v, Shape::Any) is None,
        fault(v, Shape::Text) is None <==> v is String,
        fault(v, Shape::OptionalText) is None <==> v is String || v is Null,
        fault(v, Shape::Flag) is None <==> v is Bool,
        fault(v, Shape::Small) is None <==> exists|n: u32|
            v == JsonV::Number(Number::PosInt(#[trigger] widen(n))),
        fault(v, Shape::Texts) is None <==> v is Array && forall|i: int|
            0 <= i < v->Array_0.len() ==> (#[trigger] v->Array_0[i]) is String,
{
    if let JsonV::Array(xs) = v {
        lemma_text_fault(xs);
    }
    if let JsonV::Number(Number::PosInt(n)) = v {
        if n <= u32::MAX {
            assert(widen(n as u32) == n);
        }
    }
}

/// A small number among the others.
pub open spec fn widen(n: u32) -> u64 {
    n as u64
}

proof fn lemma_text_fault(xs: Seq<JsonV>)
    ensures
        text_fault(xs) is None <==> forall|i: int|
            0 <= i < xs.len() ==> (#[trigger] xs[i]) is String,
    decreases xs.len(),
{
    if xs.len() > 0 {
        let t = xs.drop_first();
        lemma_text_fault(t);
        if forall|i: int| 0 <= i < xs.len() ==> (#[trigger] xs[i]) is String {
            assert(xs[0] is String);
            assert forall|i: int| 0 <= i < t.len() implies (#[trigger] t[i]) is String by {
                assert(xs[i + 1] is String);
            }
        }
        if xs[0] is String && forall|i: int| 0 <= i < t.len() ==> (#[trigger] t[i]) is String {
            assert forall|i: int| 0 <= i < xs.len() implies (#[trigger] xs[i]) is String by {
                if i > 0 {
                    assert(t[i - 1] is String);
                }
            }
        }
    }
}

proof fn lemma_members_fault(fields: Seq<Field>, m: Seq<(Seq<char>, JsonV)>)
    ensures
        members_fault(fields, m) is None <==> forall|i: int|
            0 <= i < m.len() ==> member_fault(fields, #[trigger] m[i]) is None,
    decreases m.len(),
{
    if m.len() > 0 {
        let t = m.drop_first();
        lemma_members_fault(fields, t);
        if forall|i: int| 0 <= i < m.len() ==> member_fault(fields, #[trigger] m[i]) is None {
            assert(member_fault(fields, m[0]) is None);
            assert forall|i: int| 0 <= i < t.len() implies member_fault(
                fields,
                #[trigger] t[i],
            ) is None by {
                assert(member_fault(fields, m[i + 1]) is None);
            }
        }
        if member_fault(fields, m[0]) is None && forall|i: int|
            0 <= i < t.len() ==> member_fault(fields, #[trigger] t[i]) is None {
            assert forall|i: int| 0 <= i < m.len() implies member_fault(
                fields,
                #[trigger] m[i],
            ) is None by {
                if i > 0 {
                    assert(member_fault(fields, t[i - 1]) is None);
                }
            }
        }
    }
}

proof fn lemma_none_missing(fields: Seq<Field>, m: Seq<(Seq<char>, JsonV)>)
    ensures
        missing(fields, m) is None <==> forall|i: int|
            0 <= i < fields.len() && (#[trigger] fields[i]).in_object ==> lookup(
                m,
                fields[i].name@,
            ) is Some,
    decreases fields.len(),
{
    if fields.len() > 0 {
        let t = fields.drop_first();
        lemma_none_missing(t, m);
        let here = fields[0].in_object ==> lookup(m, fields[0].name@) is Some;
        if forall|i: int|
            0 <= i < fields.len() && (#[trigger] fields[i]).in_object ==> lookup(
                m,
                fields[i].name@,
            ) is Some {
            assert(here);
            assert forall|i: int| 0 <= i < t.len() && (#[trigger] t[i]).in_object implies lookup(
                m,
                t[i].name@,
            ) is Some by {
                assert(fields[i + 1] == t[i]);
            }
        }
        if here && forall|i: int|
            0 <= i < t.len() && (#[trigger] t[i]).in_object ==> lookup(m, t[i].name@) is Some {
            assert forall|i: int|
                0 <= i < fields.len() && (#[trigger] fields[i]).in_object implies lookup(
                m,
                fields[i].name@,
            ) is Some by {
                if i > 0 {
                    assert(t[i - 1] == fields[i]);
                }
            }
        }
    }
}

proof fn lemma_places_fault(fields: Seq<Field>, xs: Seq<JsonV>)
    ensures
        places_fault(fields, xs) is None <==> forall|i: int|
            0 <= i < fields.len() && i < xs.len() ==> fault(
                #[trigger] xs[i],
                fields[i].shape,
            ) is None,
    decreases fields.len(),
{
    if fields.len() > 0 && xs.len() > 0 {
        let f = fields.drop_first();
        let t = xs.drop_first();
        lemma_places_fault(f, t);
        if forall|i: int|
            0 <= i < fields.len() && i < xs.len() ==> fault(
                #[trigger] xs[i],
                fields[i].shape,
            ) is None {
            assert(fault(xs[0], fields[0].shape) is None);
            assert forall|i: int| 0 <= i < f.len() && i < t.len() implies fault(
                #[trigger] t[i],
                f[i].shape,
            ) is None by {
                assert(fault(xs[i + 1], fields[i + 1].shape) is None);
            }
        }
        if fault(xs[0], fields[0].shape) is None && forall|i: int|
            0 <= i < f.len() && i < t.len() ==> fault(#[trigger] t[i], f[i].shape) is None {
            assert forall|i: int| 0 <= i < fields.len() && i < xs.len() implies fault(
                #[trigger] xs[i],
                fields[i].shape,
            ) is None by {
                if i > 0 {
                    assert(fault(t[i - 1], f[i - 1].shape) is None);
                }
            }
        }
    }
}

proof fn lemma_none_needed(fields: Seq<Field>, n: nat)
    ensures
        needed_from(fields, n) is None <==> forall|i: int|
            n <= i < fields.len() ==> !(#[trigger] fields[i]).in_array,
    decreases fields.len() - n,
{
    if n < fields.len() && !fields[n as int].in_array {
        lemma_none_needed(fields, n + 1);
    }
}

/// A record is read from an object where every member that a field names has
/// the field's shape and no field that must be there is missing; from an array
/// where the elements have the shapes of the fields in their order, none are
/// too many and none that must be there is missing. Nothing else is a record.
pub proof fn law_records(name: Seq<char>, fields: Seq<Field>, v: JsonV)
    ensures
        record_fault(name, fields, v) is None <==> match v {
            JsonV::Object(m) => (forall|i: int|
                0 <= i < m.len() ==> match shape_of(fields, (#[trigger] m[i]).0) {
                    Some(shape) => fault(m[i].1, shape) is None,
                    None => true,
                }) && forall|i: int|
                0 <= i < fields.len() && (#[trigger] fields[i]).in_object ==> lookup(
                    m,
                    fields[i].name@,
                ) is Some,
            JsonV::Array(xs) => xs.len() <= fields.len() && (forall|i: int|
                0 <= i < xs.len() ==> fault(#[trigger] xs[i], fields[i].shape) is None) && forall|
                i: int,
            |
                xs.len() <= i < fields.len() ==> !(#[trigger] fields[i]).in_array,
            _ => false,
        },
{
    match v {
        JsonV::Object(m) => {
            lemma_members_fault(fields, m);
            lemma_none_missing(fields, m);
            assert((forall|i: int|
                0 <= i < m.len() ==> match shape_of(fields, (#[trigger] m[i]).0) {
                    Some(shape) => fault(m[i].1, shape) is None,
                    None => true,
                }) <==> (forall|i: int|
                0 <= i < m.len() ==> member_fault(fields, #[trigger] m[i]) is None)) by {
                assert forall|i: int| 0 <= i < m.len() implies (member_fault(
                    fields,
                    #[trigger] m[i],
                ) is None <==> match shape_of(fields, m[i].0) {
                    Some(shape) => fault(m[i].1, shape) is None,
                    None => true,
                }) by {}
            }
        },
        JsonV::Array(xs) => {
            lemma_places_fault(fields, xs);
            lemma_none_needed(fields, xs.len());
        },
        _ => {},
    }
}

/// The shape of a name is that of the first field of that name.
pub proof fn law_first_field_of_a_name(fields: Seq<Field>, i: int, key: Seq<char>)
    ensures
        0 <= i < fields.len() && fields[i].name@ == key && (forall|j: int|
            0 <= j < i ==> (#[trigger] fields[j]).name@ != key) ==> shape_of(fields, key) == Some(
            fields[i].shape,
        ),
        (forall|j: int| 0 <= j < fields.len() ==> (#[trigger] fields[j]).name@ != key) ==> shape_of(
            fields,
            key,
        ) is None,
    decreases fields.len(),
{
    if fields.len() > 0 {
        let t = fields.drop_first();
        law_first_field_of_a_name(t, i - 1, key);
        assert forall|j: int| 0 <= j < t.len() implies #[trigger] t[j] == fields[j + 1] by {}
        if 0 < i < fields.len() && fields[i].name@ == key && (forall|j: int|
            0 <= j < i ==> (#[trigger] fields[j]).name@ != key) {
            assert(fields[0].name@ != key);
            assert(t[i - 1] == fields[i]);
            assert forall|j: int| 0 <= j < i - 1 implies (#[trigger] t[j]).name@ != key by {
                assert(fields[j + 1].name@ != key);
            }
        }
        if forall|j: int| 0 <= j < fields.len() ==> (#[trigger] fields[j]).name@ != key {
            assert(fields[0].name@ != key);
            assert forall|j: int| 0 <= j < t.len() implies (#[trigger] t[j]).name@ != key by {
                assert(fields[j + 1].name@ != key);
            }
        }
    }
}

/// What a part holds is what is read of it; what is not there is the empty
/// text, no text, false, zero, no texts or null.
pub proof fn law_parts_are_read(s: Seq<char>, b: bool, n: u32, v: JsonV, xs: Seq<JsonV>)
    ensures
        text_value(Some(JsonV::String(s))) == s,
        optional_text_value(Some(JsonV::String(s))) == Some(s),
        flag_value(Some(JsonV::Bool(b))) == b,
        small_value(Some(JsonV::Number(Number::PosInt(n as u64)))) == n,
        any_value(Some(v)) == v,
        texts_value(Some(JsonV::Array(xs))).len() == xs.len(),
        forall|i: int|
            0 <= i < xs.len() && xs[i] is String ==> #[trigger] texts_value(
                Some(JsonV::Array(xs)),
            )[i] == xs[i]->String_0,
        text_value(None).len() == 0,
        optional_text_value(None) is None,
        optional_text_value(Some(JsonV::Null)) is None,
        !flag_value(None),
        small_value(None) == 0,
        any_value(None) is Null,
        texts_value(None).len() == 0,
{
}

/// From an object whose names are in order a record is read exactly where each
/// field that is there has its shape and each that must be there is.
pub proof fn law_records_from_ordered_objects(
    name: Seq<char>,
    fields: Seq<Field>,
    m: Seq<(Seq<char>, JsonV)>,
)
    requires
        ordmap::sorted(m),
        forall|i: int, j: int|
            0 <= i < j < fields.len() ==> (#[trigger] fields[i]).name@ != (
            #[trigger] fields[j]).name@,
    ensures
        record_fault(name, fields, JsonV::Object(m)) is None <==> forall|i: int|
            0 <= i < fields.len() ==> match lookup(m, (#[trigger] fields[i]).name@) {
                Some(v) => fault(v, fields[i].shape) is None,
                None => !fields[i].in_object,
            },
{
    law_records(name, fields, JsonV::Object(m));
    assert forall|i: int| 0 <= i < fields.len() implies shape_of(
        fields,
        (#[trigger] fields[i]).name@,
    ) == Some(fields[i].shape) by {
        law_first_field_of_a_name(fields, i, fields[i].name@);
    }
    if record_fault(name, fields, JsonV::Object(m)) is None {
        assert forall|i: int| 0 <= i < fields.len() implies match lookup(
            m,
            (#[trigger] fields[i]).name@,
        ) {
            Some(v) => fault(v, fields[i].shape) is None,
            None => !fields[i].in_object,
        } by {
            if lookup(m, fields[i].name@) is Some {
                let j = ordmap::lemma_lookup_index(m, fields[i].name@);
                assert(m[j].0 == fields[i].name@);
            }
        }
    }
    if forall|i: int|
        0 <= i < fields.len() ==> match lookup(m, (#[trigger] fields[i]).name@) {
            Some(v) => fault(v, fields[i].shape) is None,
            None => !fields[i].in_object,
        } {
        assert forall|j: int| 0 <= j < m.len() implies match shape_of(
            fields,
            (#[trigger] m[j]).0,
        ) {
            Some(shape) => fault(m[j].1, shape) is None,
            None => true,
        } by {
            if shape_of(fields, m[j].0) is Some {
                let i = lemma_shape_index(fields, m[j].0);
                ordmap::lemma_lookup_sorted(m, j);
                assert(fields[i].name@ == m[j].0);
            }
        }
    }
}

proof fn lemma_shape_index(fields: Seq<Field>, key: Seq<char>) -> (i: int)
    requires
        shape_of(fields, key) is Some,
    ensures
        0 <= i < fields.len(),
        fields[i].name@ == key,
    decreases fields.len(),
{
    if fields[0].name@ == key {
        0
    } else {
        let i = lemma_shape_index(fields.drop_first(), key);
        assert(fields.drop_first()[i] == fields[i + 1]);
        i + 1
    }
}

} // verus!
