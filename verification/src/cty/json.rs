//! Between JSON and `cty` values.
//!
//! JSON has no types, so [`from_json`] is driven by the type; [`to_json`]
//! needs none.
use vstd::prelude::*;
use vstd::string::*;
use crate::cty;
use crate::cty::types;
use crate::cty::types::{CtyType, TypeV};
use crate::cty::value;
use crate::cty::value::{CtyValue, ValueV};
use crate::gather;
use crate::cty::{type_error, CtyError, CtyErrorV};
use crate::json;
use crate::json::{Json, JsonV, Number};
use crate::ordmap;
use crate::ordmap::StrMap;
use crate::text;

verus! {

// ── What the conversions give ──────────────────────────────────────

pub open spec fn got(what: Seq<char>, v: JsonV) -> CtyErrorV {
    CtyErrorV::Type(what + json::json_text(v))
}

/// The value that `v` stands for under `ty`.
pub open spec fn value_of_json(v: JsonV, ty: TypeV) -> Result<ValueV, CtyErrorV>
    decreases v, ty,
{
    if v is Null {
        Ok(ValueV::Null)
    } else {
        match ty {
            TypeV::String => match v {
                JsonV::String(s) => Ok(ValueV::String(s)),
                _ => Err(got("expected JSON string for cty string, got "@, v)),
            },
            TypeV::Bool => match v {
                JsonV::Bool(b) => Ok(ValueV::Bool(b)),
                _ => Err(got("expected JSON bool for cty bool, got "@, v)),
            },
            TypeV::Number => match v {
                JsonV::Number(n) => Ok(ValueV::Number(n)),
                _ => Err(got("expected JSON number for cty number, got "@, v)),
            },
            TypeV::List(e) => if v is Array {
                match list_of_json(v->Array_0, *e) {
                    Ok(xs) => Ok(ValueV::List(xs)),
                    Err(err) => Err(err),
                }
            } else if v is Object && *e is Object {
                // A block written as its one element.
                match value_of_json(v, *e) {
                    Ok(x) => Ok(ValueV::List(seq![x])),
                    Err(err) => Err(err),
                }
            } else {
                Err(got("expected JSON array, got "@, v))
            },
            TypeV::SetOf(e) => if v is Array {
                match list_of_json(v->Array_0, *e) {
                    Ok(xs) => Ok(ValueV::SetOf(xs)),
                    Err(err) => Err(err),
                }
            } else if v is Object && *e is Object {
                match value_of_json(v, *e) {
                    Ok(x) => Ok(ValueV::SetOf(seq![x])),
                    Err(err) => Err(err),
                }
            } else {
                Err(got("expected JSON array, got "@, v))
            },
            TypeV::Tuple(ts) => match v {
                JsonV::Array(xs) => if xs.len() != ts.len() {
                    Err(
                        CtyErrorV::Type(
                            "tuple arity mismatch: JSON has "@ + text::decimal(xs.len())
                                + ", type has "@ + text::decimal(ts.len()),
                        ),
                    )
                } else {
                    match tuple_of_json(xs, ts) {
                        Ok(ys) => Ok(ValueV::Tuple(ys)),
                        Err(err) => Err(err),
                    }
                },
                _ => Err(got("expected JSON array for tuple, got "@, v)),
            },
            TypeV::MapOf(e) => match v {
                JsonV::Object(m) => match members_of_json(m, *e) {
                    Ok(o) => Ok(ValueV::MapOf(o)),
                    Err(err) => Err(err),
                },
                _ => Err(got("expected JSON object for map, got "@, v)),
            },
            TypeV::Object(attrs) => match v {
                JsonV::Object(m) => match attrs_of_json(m, attrs) {
                    Ok(o) => Ok(ValueV::Object(o)),
                    Err(err) => Err(err),
                },
                _ => Err(got("expected JSON object for object, got "@, v)),
            },
            TypeV::DynamicPseudoType => Ok(inferred(v)),
        }
    }
}

/// Each element under `e`, up to the first error.
pub open spec fn list_of_json(xs: Seq<JsonV>, e: TypeV) -> Result<Seq<ValueV>, CtyErrorV>
    decreases xs, e,
{
    if xs.len() == 0 {
        Ok(Seq::empty())
    } else {
        match list_of_json(xs.subrange(0, xs.len() - 1), e) {
            Ok(prev) => match value_of_json(xs[xs.len() - 1], e) {
                Ok(x) => Ok(prev.push(x)),
                Err(err) => Err(err),
            },
            Err(err) => Err(err),
        }
    }
}

/// Each element under the type at its place, up to the first error.
pub open spec fn tuple_of_json(xs: Seq<JsonV>, ts: Seq<TypeV>) -> Result<Seq<ValueV>, CtyErrorV>
    decreases xs, ts,
{
    if xs.len() == 0 {
        Ok(Seq::empty())
    } else {
        match tuple_of_json(xs.subrange(0, xs.len() - 1), ts) {
            Ok(prev) => match value_of_json(xs[xs.len() - 1], ts[xs.len() - 1]) {
                Ok(x) => Ok(prev.push(x)),
                Err(err) => Err(err),
            },
            Err(err) => Err(err),
        }
    }
}

/// Each member under `e`, up to the first error.
pub open spec fn members_of_json(m: Seq<(Seq<char>, JsonV)>, e: TypeV) -> Result<
    Seq<(Seq<char>, ValueV)>,
    CtyErrorV,
>
    decreases m, e,
{
    if m.len() == 0 {
        Ok(Seq::empty())
    } else {
        match members_of_json(m.subrange(0, m.len() - 1), e) {
            Ok(prev) => match value_of_json(m[m.len() - 1].1, e) {
                Ok(x) => Ok(prev.push((m[m.len() - 1].0, x))),
                Err(err) => Err(err),
            },
            Err(err) => Err(err),
        }
    }
}

/// Where the member `key` stands, or past the end.
pub open spec fn find_member(m: Seq<(Seq<char>, JsonV)>, key: Seq<char>) -> int
    decreases m.len(),
{
    if m.len() == 0 {
        0
    } else if m[0].0 == key {
        0
    } else {
        1 + find_member(m.drop_first(), key)
    }
}

/// For each attribute of the type, the member of that name under the
/// attribute's type, null where there is none; up to the first error.
/// Members that the type does not name are left out.
pub open spec fn attrs_of_json(m: Seq<(Seq<char>, JsonV)>, attrs: Seq<(Seq<char>, TypeV)>) -> Result<
    Seq<(Seq<char>, ValueV)>,
    CtyErrorV,
>
    decreases m, attrs,
{
    if attrs.len() == 0 {
        Ok(Seq::empty())
    } else {
        match attrs_of_json(m, attrs.subrange(0, attrs.len() - 1)) {
            Ok(prev) => {
                let name = attrs[attrs.len() - 1].0;
                let at = find_member(m, name);
                if 0 <= at < m.len() {
                    match value_of_json(m[at].1, attrs[attrs.len() - 1].1) {
                        Ok(x) => Ok(prev.push((name, x))),
                        Err(err) => Err(err),
                    }
                } else {
                    Ok(prev.push((name, ValueV::Null)))
                }
            },
            Err(err) => Err(err),
        }
    }
}

/// The value that JSON stands for by its own shape: an array is a tuple.
pub open spec fn inferred(v: JsonV) -> ValueV
    decreases v,
{
    match v {
        JsonV::Null => ValueV::Null,
        JsonV::Bool(b) => ValueV::Bool(b),
        JsonV::Number(n) => ValueV::Number(n),
        JsonV::String(s) => ValueV::String(s),
        JsonV::Array(xs) => ValueV::Tuple(
            Seq::new(
                xs.len(),
                |i: int|
                    if 0 <= i < xs.len() {
                        inferred(xs[i])
                    } else {
                        ValueV::Null
                    },
            ),
        ),
        JsonV::Object(m) => ValueV::Object(
            Seq::new(
                m.len(),
                |i: int|
                    if 0 <= i < m.len() {
                        (m[i].0, inferred(m[i].1))
                    } else {
                        (Seq::empty(), ValueV::Null)
                    },
            ),
        ),
    }
}

/// The JSON form of a value; what is unknown becomes null.
pub open spec fn json_of_value(v: ValueV) -> JsonV
    decreases v, 1int,
{
    match v {
        ValueV::Null => JsonV::Null,
        ValueV::Unknown => JsonV::Null,
        ValueV::Bool(b) => JsonV::Bool(b),
        ValueV::Number(n) => JsonV::Number(n),
        ValueV::String(s) => JsonV::String(s),
        ValueV::List(xs) => JsonV::Array(json_of_values(xs)),
        ValueV::SetOf(xs) => JsonV::Array(json_of_values(xs)),
        ValueV::Tuple(xs) => JsonV::Array(json_of_values(xs)),
        ValueV::MapOf(m) => JsonV::Object(json_of_members(m)),
        ValueV::Object(m) => JsonV::Object(json_of_members(m)),
    }
}

pub open spec fn json_of_values(xs: Seq<ValueV>) -> Seq<JsonV>
    decreases xs, 0int,
{
    Seq::new(
        xs.len(),
        |i: int|
            if 0 <= i < xs.len() {
                json_of_value(xs[i])
            } else {
                JsonV::Null
            },
    )
}

pub open spec fn json_of_members(m: Seq<(Seq<char>, ValueV)>) -> Seq<(Seq<char>, JsonV)>
    decreases m, 0int,
{
    Seq::new(
        m.len(),
        |i: int|
            if 0 <= i < m.len() {
                (m[i].0, json_of_value(m[i].1))
            } else {
                (Seq::empty(), JsonV::Null)
            },
    )
}

// ── JSON to values ─────────────────────────────────────────────────

fn got_error(what: &str, v: &Json) -> (r: CtyError)
    ensures
        r@ == got(what@, v@),
{
    let t = v.text();
    type_error(what, t.as_str())
}

/// Convert a JSON value under `ty`. A null is a null of any type; under an
/// object type only the attributes of the type come out, null where the
/// JSON has none.
pub fn from_json(v: &Json, ty: &CtyType) -> (r: Result<CtyValue, CtyError>)
    ensures
        cty::outcome(r) == value_of_json(v@, ty@),
    decreases v, ty, 1int,
{
    if let Json::Null = v {
        return Ok(CtyValue::Null);
    }
    match ty {
        CtyType::String => match v {
            Json::String(s) => Ok(CtyValue::String(s.clone())),
            _ => Err(got_error("expected JSON string for cty string, got ", v)),
        },
        CtyType::Bool => match v {
            Json::Bool(b) => Ok(CtyValue::Bool(*b)),
            _ => Err(got_error("expected JSON bool for cty bool, got ", v)),
        },
        CtyType::Number => match v {
            Json::Number(n) => Ok(CtyValue::Number(*n)),
            _ => Err(got_error("expected JSON number for cty number, got ", v)),
        },
        CtyType::List(e) => match json_seq(v, e) {
            Ok(xs) => {
                proof {
                    value::lemma_values_view(xs);
                }
                Ok(CtyValue::List(xs))
            },
            Err(err) => Err(err),
        },
        CtyType::SetOf(e) => match json_seq(v, e) {
            Ok(xs) => {
                proof {
                    value::lemma_values_view(xs);
                }
                Ok(CtyValue::SetOf(xs))
            },
            Err(err) => Err(err),
        },
        CtyType::Tuple(types) => match v {
            Json::Array(xs) => {
                proof {
                    json::lemma_array_view(*xs);
                    types::lemma_tuple_type_view(*types);
                }
                if xs.len() != types.len() {
                    let a = text::decimal_text(xs.len());
                    let b = text::decimal_text(types.len());
                    let msg = text::join4(
                        "tuple arity mismatch: JSON has ",
                        a.as_str(),
                        ", type has ",
                        b.as_str(),
                    );
                    return Err(CtyError::Type(msg));
                }
                match tuple_from_json(xs, types) {
                    Ok(ys) => {
                        proof {
                            value::lemma_values_view(ys);
                        }
                        Ok(CtyValue::Tuple(ys))
                    },
                    Err(err) => Err(err),
                }
            },
            _ => Err(got_error("expected JSON array for tuple, got ", v)),
        },
        CtyType::MapOf(e) => match v {
            Json::Object(m) => {
                proof {
                    json::lemma_object_view(*m);
                }
                match members_from_json(m, e) {
                    Ok(o) => {
                        proof {
                            value::lemma_members_view(o);
                        }
                        Ok(CtyValue::MapOf(o))
                    },
                    Err(err) => Err(err),
                }
            },
            _ => Err(got_error("expected JSON object for map, got ", v)),
        },
        CtyType::Object(attrs) => match v {
            Json::Object(m) => {
                proof {
                    json::lemma_object_view(*m);
                    types::lemma_object_type_view(*attrs);
                }
                match attrs_from_json(m, attrs) {
                    Ok(o) => {
                        proof {
                            value::lemma_members_view(o);
                        }
                        Ok(CtyValue::Object(o))
                    },
                    Err(err) => Err(err),
                }
            },
            _ => Err(got_error("expected JSON object for object, got ", v)),
        },
        CtyType::DynamicPseudoType => Ok(from_json_dynamic(v)),
    }
}

/// The elements of a list or a set. A lone object stands for a list of one
/// where the elements are objects.
fn json_seq(v: &Json, elem: &CtyType) -> (r: Result<Vec<CtyValue>, CtyError>)
    requires
        !(v@ is Null),
    ensures
        match r {
            Ok(xs) => value_of_json(v@, TypeV::List(Box::new(elem@))) == Ok::<ValueV, CtyErrorV>(
                ValueV::List(value::values_view(xs@)),
            ) && value_of_json(v@, TypeV::SetOf(Box::new(elem@))) == Ok::<ValueV, CtyErrorV>(
                ValueV::SetOf(value::values_view(xs@)),
            ),
            Err(e) => value_of_json(v@, TypeV::List(Box::new(elem@))) == Err::<ValueV, CtyErrorV>(e@)
                && value_of_json(v@, TypeV::SetOf(Box::new(elem@))) == Err::<ValueV, CtyErrorV>(e@),
        },
    decreases v, elem, 2int,
{
    if let Json::Array(xs) = v {
        proof {
            json::lemma_array_view(*xs);
        }
        return list_from_json(xs, elem);
    }
    let lone = match (v, elem) {
        (Json::Object(_), CtyType::Object(_)) => true,
        _ => false,
    };
    if lone {
        return match from_json(v, elem) {
            Ok(x) => {
                let xs = vec![x];
                proof {
                    assert(value::values_view(xs@) =~= seq![x@]);
                }
                Ok(xs)
            },
            Err(e) => Err(e),
        };
    }
    Err(got_error("expected JSON array, got ", v))
}

#[verifier::loop_isolation(false)]
fn list_from_json(xs: &Vec<Json>, elem: &CtyType) -> (r: Result<Vec<CtyValue>, CtyError>)
    ensures
        match r {
            Ok(ys) => list_of_json(json::list_view(xs@), elem@) == Ok::<Seq<ValueV>, CtyErrorV>(
                value::values_view(ys@),
            ),
            Err(e) => list_of_json(json::list_view(xs@), elem@) == Err::<Seq<ValueV>, CtyErrorV>(e@),
        },
    decreases xs, elem, 0int,
{
    let mut out: Vec<CtyValue> = Vec::new();
    let mut i: usize = 0;
    let ghost all = json::list_view(xs@);
    proof {
        assert(all.subrange(0, 0) =~= Seq::empty());
        assert(value::values_view(out@) =~= Seq::empty());
    }
    while i < xs.len()
        invariant
            i <= xs@.len(),
            list_of_json(all.subrange(0, i as int), elem@) == Ok::<Seq<ValueV>, CtyErrorV>(
                value::values_view(out@),
            ),
        decreases xs.len() - i,
    {
        proof {
            assert(decreases_to!(*xs => xs@[i as int]));
            let b = all.subrange(0, i + 1);
            assert(b.subrange(0, i as int) =~= all.subrange(0, i as int));
            assert(b[i as int] == xs@[i as int]@);
        }
        match from_json(&xs[i], elem) {
            Ok(x) => {
                proof {
                    assert(value::values_view(out@.push(x)) =~= value::values_view(out@).push(x@));
                }
                out.push(x);
            },
            Err(e) => {
                proof {
                    lemma_list_error(all, elem@, i + 1);
                }
                return Err(e);
            },
        }
        i += 1;
    }
    proof {
        assert(all.subrange(0, all.len() as int) =~= all);
    }
    Ok(out)
}

#[verifier::loop_isolation(false)]
fn tuple_from_json(xs: &Vec<Json>, types: &Vec<CtyType>) -> (r: Result<Vec<CtyValue>, CtyError>)
    requires
        xs@.len() == types@.len(),
    ensures
        match r {
            Ok(ys) => tuple_of_json(json::list_view(xs@), types::types_view(types@)) == Ok::<
                Seq<ValueV>,
                CtyErrorV,
            >(value::values_view(ys@)),
            Err(e) => tuple_of_json(json::list_view(xs@), types::types_view(types@)) == Err::<
                Seq<ValueV>,
                CtyErrorV,
            >(e@),
        },
    decreases xs, types, 0int,
{
    let mut out: Vec<CtyValue> = Vec::new();
    let mut i: usize = 0;
    let ghost all = json::list_view(xs@);
    let ghost ts = types::types_view(types@);
    proof {
        assert(all.subrange(0, 0) =~= Seq::empty());
        assert(value::values_view(out@) =~= Seq::empty());
    }
    while i < xs.len()
        invariant
            i <= xs@.len(),
            tuple_of_json(all.subrange(0, i as int), ts) == Ok::<Seq<ValueV>, CtyErrorV>(
                value::values_view(out@),
            ),
        decreases xs.len() - i,
    {
        proof {
            assert(decreases_to!(*xs => xs@[i as int]));
            let b = all.subrange(0, i + 1);
            assert(b.subrange(0, i as int) =~= all.subrange(0, i as int));
            assert(b[i as int] == xs@[i as int]@);
            assert(ts[i as int] == types@[i as int]@);
        }
        match from_json(&xs[i], &types[i]) {
            Ok(x) => {
                proof {
                    assert(value::values_view(out@.push(x)) =~= value::values_view(out@).push(x@));
                }
                out.push(x);
            },
            Err(e) => {
                proof {
                    lemma_tuple_error(all, ts, i + 1);
                }
                return Err(e);
            },
        }
        i += 1;
    }
    proof {
        assert(all.subrange(0, all.len() as int) =~= all);
    }
    Ok(out)
}

#[verifier::loop_isolation(false)]
fn members_from_json(m: &StrMap<Json>, elem: &CtyType) -> (r: Result<StrMap<CtyValue>, CtyError>)
    ensures
        match r {
            Ok(o) => members_of_json(json::object_view(m@), elem@) == Ok::<
                Seq<(Seq<char>, ValueV)>,
                CtyErrorV,
            >(value::members_view(o@)),
            Err(e) => members_of_json(json::object_view(m@), elem@) == Err::<
                Seq<(Seq<char>, ValueV)>,
                CtyErrorV,
            >(e@),
        },
    decreases m, elem, 0int,
{
    let mut out: StrMap<CtyValue> = StrMap::new();
    let mut i: usize = 0;
    let ghost all = json::object_view(m@);
    proof {
        assert(all.subrange(0, 0) =~= Seq::empty());
        assert(value::members_view(out@) =~= Seq::empty());
    }
    while i < m.entries.len()
        invariant
            i <= m.entries@.len(),
            members_of_json(all.subrange(0, i as int), elem@) == Ok::<
                Seq<(Seq<char>, ValueV)>,
                CtyErrorV,
            >(value::members_view(out@)),
        decreases m.entries.len() - i,
    {
        proof {
            assert(decreases_to!(m.entries => m.entries@[i as int]));
            let b = all.subrange(0, i + 1);
            assert(b.subrange(0, i as int) =~= all.subrange(0, i as int));
            assert(b[i as int] == (m.entries@[i as int].0@, m.entries@[i as int].1@));
        }
        match from_json(&m.entries[i].1, elem) {
            Ok(x) => {
                let ghost old_out = out@;
                let ghost key = m.entries@[i as int].0@;
                out.entries.push((m.entries[i].0.clone(), x));
                proof {
                    assert(value::members_view(out@) =~= value::members_view(old_out).push((key, x@)));
                }
            },
            Err(e) => {
                proof {
                    lemma_members_error(all, elem@, i + 1);
                }
                return Err(e);
            },
        }
        i += 1;
    }
    proof {
        assert(all.subrange(0, all.len() as int) =~= all);
    }
    Ok(out)
}

#[verifier::loop_isolation(false)]
fn attrs_from_json(m: &StrMap<Json>, attrs: &StrMap<CtyType>) -> (r: Result<
    StrMap<CtyValue>,
    CtyError,
>)
    ensures
        match r {
            Ok(o) => attrs_of_json(json::object_view(m@), types::attrs_view(attrs@)) == Ok::<
                Seq<(Seq<char>, ValueV)>,
                CtyErrorV,
            >(value::members_view(o@)),
            Err(e) => attrs_of_json(json::object_view(m@), types::attrs_view(attrs@)) == Err::<
                Seq<(Seq<char>, ValueV)>,
                CtyErrorV,
            >(e@),
        },
    decreases m, attrs, 0int,
{
    let mut out: StrMap<CtyValue> = StrMap::new();
    let mut i: usize = 0;
    let ghost all = types::attrs_view(attrs@);
    let ghost mv = json::object_view(m@);
    proof {
        assert(all.subrange(0, 0) =~= Seq::empty());
        assert(value::members_view(out@) =~= Seq::empty());
    }
    while i < attrs.entries.len()
        invariant
            i <= attrs.entries@.len(),
            attrs_of_json(mv, all.subrange(0, i as int)) == Ok::<
                Seq<(Seq<char>, ValueV)>,
                CtyErrorV,
            >(value::members_view(out@)),
        decreases attrs.entries.len() - i,
    {
        let ghost key = attrs.entries@[i as int].0@;
        let ghost old_out = out@;
        proof {
            let b = all.subrange(0, i + 1);
            assert(b.subrange(0, i as int) =~= all.subrange(0, i as int));
            assert(b[i as int] == (key, attrs.entries@[i as int].1@));
        }
        match m.position(attrs.entries[i].0.as_str()) {
            Some(p) => {
                proof {
                    assert(decreases_to!(m.entries => m.entries@[p as int]));
                    lemma_find_at(mv, key, p as int);
                    assert(mv[p as int].1 == m.entries@[p as int].1@);
                }
                match from_json(&m.entries[p].1, &attrs.entries[i].1) {
                    Ok(x) => {
                        out.entries.push((attrs.entries[i].0.clone(), x));
                        proof {
                            assert(value::members_view(out@) =~= value::members_view(old_out).push(
                                (key, x@),
                            ));
                        }
                    },
                    Err(e) => {
                        proof {
                            lemma_attrs_error(mv, all, i + 1);
                        }
                        return Err(e);
                    },
                }
            },
            None => {
                proof {
                    lemma_find_none(mv, key);
                }
                out.entries.push((attrs.entries[i].0.clone(), CtyValue::Null));
                proof {
                    assert(value::members_view(out@) =~= value::members_view(old_out).push(
                        (key, ValueV::Null),
                    ));
                }
            },
        }
        i += 1;
    }
    proof {
        assert(all.subrange(0, all.len() as int) =~= all);
    }
    Ok(out)
}

/// The value by the JSON's own shape.
#[verifier::loop_isolation(false)]
fn from_json_dynamic(v: &Json) -> (r: CtyValue)
    ensures
        r@ == inferred(v@),
    decreases v,
{
    match v {
        Json::Null => CtyValue::Null,
        Json::Bool(b) => CtyValue::Bool(*b),
        Json::Number(n) => CtyValue::Number(*n),
        Json::String(s) => CtyValue::String(s.clone()),
        Json::Array(xs) => {
            let mut out: Vec<CtyValue> = Vec::new();
            let mut i: usize = 0;
            while i < xs.len()
                invariant
                    i <= xs@.len(),
                    out@.len() == i,
                    forall|j: int| 0 <= j < i ==> (#[trigger] out@[j])@ == inferred(xs@[j]@),
                decreases xs.len() - i,
            {
                proof {
                    assert(decreases_to!(*xs => xs@[i as int]));
                }
                let x = from_json_dynamic(&xs[i]);
                out.push(x);
                i += 1;
            }
            proof {
                json::lemma_array_view(*xs);
                value::lemma_values_view(out);
                assert(value::values_view(out@) =~= inferred(v@)->Tuple_0);
            }
            CtyValue::Tuple(out)
        },
        Json::Object(m) => {
            let mut out: Vec<(String, CtyValue)> = Vec::new();
            let mut i: usize = 0;
            while i < m.entries.len()
                invariant
                    i <= m.entries@.len(),
                    out@.len() == i,
                    forall|j: int|
                        0 <= j < i ==> (#[trigger] out@[j]).0@ == m.entries@[j].0@ && out@[j].1@
                            == inferred(m.entries@[j].1@),
                decreases m.entries.len() - i,
            {
                proof {
                    assert(decreases_to!(m.entries => m.entries@[i as int]));
                }
                let x = from_json_dynamic(&m.entries[i].1);
                out.push((m.entries[i].0.clone(), x));
                i += 1;
            }
            let o = StrMap { entries: out };
            proof {
                json::lemma_object_view(*m);
                value::lemma_members_view(o);
                assert(value::members_view(o@) =~= inferred(v@)->Object_0);
            }
            CtyValue::Object(o)
        },
    }
}

// ── Values to JSON ─────────────────────────────────────────────────

/// The JSON form; what is unknown becomes null.
pub fn to_json(v: &CtyValue) -> (r: Json)
    ensures
        r@ == json_of_value(v@),
    decreases v, 1int,
{
    match v {
        CtyValue::Null => Json::Null,
        CtyValue::Unknown => Json::Null,
        CtyValue::Bool(b) => Json::Bool(*b),
        CtyValue::Number(n) => Json::Number(*n),
        CtyValue::String(s) => Json::String(s.clone()),
        CtyValue::List(xs) => values_to_json(xs),
        CtyValue::SetOf(xs) => values_to_json(xs),
        CtyValue::Tuple(xs) => values_to_json(xs),
        CtyValue::MapOf(m) => members_to_json(m),
        CtyValue::Object(m) => members_to_json(m),
    }
}

#[verifier::loop_isolation(false)]
fn values_to_json(xs: &Vec<CtyValue>) -> (r: Json)
    ensures
        r@ == JsonV::Array(json_of_values(value::values_model(xs@))),
    decreases xs, 0int,
{
    let mut out: Vec<Json> = Vec::new();
    let mut i: usize = 0;
    while i < xs.len()
        invariant
            i <= xs@.len(),
            out@.len() == i,
            forall|j: int| 0 <= j < i ==> (#[trigger] out@[j])@ == json_of_value(xs@[j]@),
        decreases xs.len() - i,
    {
        proof {
            assert(decreases_to!(*xs => xs@[i as int]));
        }
        let x = to_json(&xs[i]);
        out.push(x);
        i += 1;
    }
    proof {
        json::lemma_array_view(out);
        assert(json::list_view(out@) =~= json_of_values(value::values_model(xs@)));
    }
    Json::Array(out)
}

#[verifier::loop_isolation(false)]
fn members_to_json(m: &StrMap<CtyValue>) -> (r: Json)
    ensures
        r@ == JsonV::Object(json_of_members(value::members_model(m.entries@))),
    decreases m, 0int,
{
    let mut out: Vec<(String, Json)> = Vec::new();
    let mut i: usize = 0;
    while i < m.entries.len()
        invariant
            i <= m.entries@.len(),
            out@.len() == i,
            forall|j: int|
                0 <= j < i ==> (#[trigger] out@[j]).0@ == m.entries@[j].0@ && out@[j].1@
                    == json_of_value(m.entries@[j].1@),
        decreases m.entries.len() - i,
    {
        proof {
            assert(decreases_to!(m.entries => m.entries@[i as int]));
        }
        let x = to_json(&m.entries[i].1);
        out.push((m.entries[i].0.clone(), x));
        i += 1;
    }
    let o = StrMap { entries: out };
    proof {
        json::lemma_object_view(o);
        assert(json::object_view(o@) =~= json_of_members(value::members_model(m.entries@)));
    }
    Json::Object(o)
}

// ── Facts about the conversions ────────────────────────────────────

proof fn lemma_list_error(xs: Seq<JsonV>, e: TypeV, n: int)
    requires
        0 <= n <= xs.len(),
        list_of_json(xs.subrange(0, n), e) is Err,
    ensures
        list_of_json(xs, e) == list_of_json(xs.subrange(0, n), e),
    decreases xs.len() - n,
{
    if n == xs.len() {
        assert(xs.subrange(0, n) =~= xs);
    } else {
        let b = xs.subrange(0, n + 1);
        assert(b.subrange(0, n) =~= xs.subrange(0, n));
        lemma_list_error(xs, e, n + 1);
    }
}

proof fn lemma_tuple_error(xs: Seq<JsonV>, ts: Seq<TypeV>, n: int)
    requires
        0 <= n <= xs.len(),
        tuple_of_json(xs.subrange(0, n), ts) is Err,
    ensures
        tuple_of_json(xs, ts) == tuple_of_json(xs.subrange(0, n), ts),
    decreases xs.len() - n,
{
    if n == xs.len() {
        assert(xs.subrange(0, n) =~= xs);
    } else {
        let b = xs.subrange(0, n + 1);
        assert(b.subrange(0, n) =~= xs.subrange(0, n));
        lemma_tuple_error(xs, ts, n + 1);
    }
}

proof fn lemma_members_error(m: Seq<(Seq<char>, JsonV)>, e: TypeV, n: int)
    requires
        0 <= n <= m.len(),
        members_of_json(m.subrange(0, n), e) is Err,
    ensures
        members_of_json(m, e) == members_of_json(m.subrange(0, n), e),
    decreases m.len() - n,
{
    if n == m.len() {
        assert(m.subrange(0, n) =~= m);
    } else {
        let b = m.subrange(0, n + 1);
        assert(b.subrange(0, n) =~= m.subrange(0, n));
        lemma_members_error(m, e, n + 1);
    }
}

proof fn lemma_attrs_error(m: Seq<(Seq<char>, JsonV)>, attrs: Seq<(Seq<char>, TypeV)>, n: int)
    requires
        0 <= n <= attrs.len(),
        attrs_of_json(m, attrs.subrange(0, n)) is Err,
    ensures
        attrs_of_json(m, attrs) == attrs_of_json(m, attrs.subrange(0, n)),
    decreases attrs.len() - n,
{
    if n == attrs.len() {
        assert(attrs.subrange(0, n) =~= attrs);
    } else {
        let b = attrs.subrange(0, n + 1);
        assert(b.subrange(0, n) =~= attrs.subrange(0, n));
        lemma_attrs_error(m, attrs, n + 1);
    }
}

proof fn lemma_find_at(m: Seq<(Seq<char>, JsonV)>, key: Seq<char>, i: int)
    requires
        0 <= i < m.len(),
        m[i].0 == key,
        forall|j: int| 0 <= j < i ==> (#[trigger] m[j]).0 != key,
    ensures
        find_member(m, key) == i,
    decreases i,
{
    if i > 0 {
        assert(m[0].0 != key);
        let t = m.drop_first();
        assert forall|j: int| 0 <= j < i - 1 implies (#[trigger] t[j]).0 != key by {
            assert(t[j] == m[j + 1]);
        }
        lemma_find_at(t, key, i - 1);
    }
}

proof fn lemma_find_none(m: Seq<(Seq<char>, JsonV)>, key: Seq<char>)
    requires
        forall|j: int| 0 <= j < m.len() ==> (#[trigger] m[j]).0 != key,
    ensures
        find_member(m, key) == m.len(),
    decreases m.len(),
{
    if m.len() > 0 {
        assert(m[0].0 != key);
        let t = m.drop_first();
        assert forall|j: int| 0 <= j < t.len() implies (#[trigger] t[j]).0 != key by {
            assert(t[j] == m[j + 1]);
        }
        lemma_find_none(t, key);
    }
}

// ── Laws ───────────────────────────────────────────────────────────

/// An object type lets through exactly its own attributes, by name and in
/// its order: a member that it does not name never reaches the value.
pub proof fn law_only_declared_attributes(m: Seq<(Seq<char>, JsonV)>, attrs: Seq<(Seq<char>, TypeV)>)
    requires
        attrs_of_json(m, attrs) is Ok,
    ensures
        ordmap::keys_of(attrs_of_json(m, attrs)->Ok_0) == ordmap::keys_of(attrs),
    decreases attrs.len(),
{
    if attrs.len() == 0 {
        assert(ordmap::keys_of(attrs_of_json(m, attrs)->Ok_0) =~= ordmap::keys_of(attrs));
    } else {
        let front = attrs.subrange(0, attrs.len() - 1);
        law_only_declared_attributes(m, front);
        let prev = attrs_of_json(m, front)->Ok_0;
        let all = attrs_of_json(m, attrs)->Ok_0;
        assert(ordmap::keys_of(front).len() == front.len());
        assert(ordmap::keys_of(prev).len() == prev.len());
        assert(all.len() == prev.len() + 1);
        assert forall|i: int| 0 <= i < attrs.len() implies (#[trigger] ordmap::keys_of(all)[i])
            == ordmap::keys_of(attrs)[i] by {
            if i < front.len() {
                assert(ordmap::keys_of(prev)[i] == ordmap::keys_of(front)[i]);
                assert(all[i] == prev[i]);
            }
        }
        assert(ordmap::keys_of(all) =~= ordmap::keys_of(attrs));
    }
}

proof fn lemma_list_gathers(xs: Seq<JsonV>, e: TypeV, n: int)
    requires
        0 <= n <= xs.len(),
    ensures
        gather::gathered(list_of_json(xs.subrange(0, n), e), n, |i: int| value_of_json(xs[i], e)),
    decreases n,
{
    if n > 0 {
        lemma_list_gathers(xs, e, n - 1);
        let b = xs.subrange(0, n);
        let a = xs.subrange(0, n - 1);
        assert(b.subrange(0, n - 1) =~= a);
        gather::lemma_gathered_push(
            list_of_json(a, e),
            list_of_json(b, e),
            n - 1,
            |i: int| value_of_json(xs[i], e),
        );
    }
}

/// A list or set is read from an array element by element: each element is
/// what its own JSON stands for, and the first that stands for nothing is
/// the error of the whole.
pub proof fn law_lists_are_read_by_element(xs: Seq<JsonV>, e: TypeV)
    ensures
        match value_of_json(JsonV::Array(xs), TypeV::List(Box::new(e))) {
            Ok(v) => v is List && gather::gathered(
                Ok(v->List_0),
                xs.len() as int,
                |i: int| value_of_json(xs[i], e),
            ),
            Err(err) => gather::gathered(
                Err::<Seq<ValueV>, CtyErrorV>(err),
                xs.len() as int,
                |i: int| value_of_json(xs[i], e),
            ),
        },
        match value_of_json(JsonV::Array(xs), TypeV::SetOf(Box::new(e))) {
            Ok(v) => v is SetOf && gather::gathered(
                Ok(v->SetOf_0),
                xs.len() as int,
                |i: int| value_of_json(xs[i], e),
            ),
            Err(err) => gather::gathered(
                Err::<Seq<ValueV>, CtyErrorV>(err),
                xs.len() as int,
                |i: int| value_of_json(xs[i], e),
            ),
        },
{
    lemma_list_gathers(xs, e, xs.len() as int);
    assert(xs.subrange(0, xs.len() as int) =~= xs);
}

proof fn lemma_tuple_gathers(xs: Seq<JsonV>, ts: Seq<TypeV>, n: int)
    requires
        0 <= n <= xs.len(),
    ensures
        gather::gathered(tuple_of_json(xs.subrange(0, n), ts), n, |i: int| value_of_json(xs[i], ts[i])),
    decreases n,
{
    if n > 0 {
        lemma_tuple_gathers(xs, ts, n - 1);
        let b = xs.subrange(0, n);
        let a = xs.subrange(0, n - 1);
        assert(b.subrange(0, n - 1) =~= a);
        gather::lemma_gathered_push(
            tuple_of_json(a, ts),
            tuple_of_json(b, ts),
            n - 1,
            |i: int| value_of_json(xs[i], ts[i]),
        );
    }
}

/// A tuple is read from an array of its own length and no other, each element
/// under the type at its own place.
pub proof fn law_tuples_are_read_by_place(xs: Seq<JsonV>, ts: Seq<TypeV>)
    ensures
        xs.len() != ts.len() ==> value_of_json(JsonV::Array(xs), TypeV::Tuple(ts)) is Err,
        xs.len() == ts.len() ==> match value_of_json(JsonV::Array(xs), TypeV::Tuple(ts)) {
            Ok(v) => v is Tuple && gather::gathered(
                Ok(v->Tuple_0),
                xs.len() as int,
                |i: int| value_of_json(xs[i], ts[i]),
            ),
            Err(err) => gather::gathered(
                Err::<Seq<ValueV>, CtyErrorV>(err),
                xs.len() as int,
                |i: int| value_of_json(xs[i], ts[i]),
            ),
        },
{
    lemma_tuple_gathers(xs, ts, xs.len() as int);
    assert(xs.subrange(0, xs.len() as int) =~= xs);
}

/// A value under its name.
spec fn named(key: Seq<char>, r: Result<ValueV, CtyErrorV>) -> Result<
    (Seq<char>, ValueV),
    CtyErrorV,
> {
    match r {
        Ok(v) => Ok((key, v)),
        Err(e) => Err(e),
    }
}

proof fn lemma_members_gather(m: Seq<(Seq<char>, JsonV)>, e: TypeV, n: int)
    requires
        0 <= n <= m.len(),
    ensures
        gather::gathered(
            members_of_json(m.subrange(0, n), e),
            n,
            |i: int| named(m[i].0, value_of_json(m[i].1, e)),
        ),
    decreases n,
{
    if n > 0 {
        lemma_members_gather(m, e, n - 1);
        let b = m.subrange(0, n);
        let a = m.subrange(0, n - 1);
        assert(b.subrange(0, n - 1) =~= a);
        gather::lemma_gathered_push(
            members_of_json(a, e),
            members_of_json(b, e),
            n - 1,
            |i: int| named(m[i].0, value_of_json(m[i].1, e)),
        );
    }
}

/// A map is read from an object member by member, each under its own key; the
/// first member that stands for nothing is the error of the whole.
pub proof fn law_maps_are_read_by_member(m: Seq<(Seq<char>, JsonV)>, e: TypeV)
    ensures
        match value_of_json(JsonV::Object(m), TypeV::MapOf(Box::new(e))) {
            Ok(v) => v is MapOf && v->MapOf_0.len() == m.len() && forall|i: int|
                0 <= i < m.len() ==> (#[trigger] v->MapOf_0[i]).0 == m[i].0 && value_of_json(
                    m[i].1,
                    e,
                ) == Ok::<ValueV, CtyErrorV>(v->MapOf_0[i].1),
            Err(err) => exists|i: int|
                0 <= i < m.len() && value_of_json((#[trigger] m[i]).1, e) == Err::<
                    ValueV,
                    CtyErrorV,
                >(err) && forall|j: int|
                    0 <= j < i ==> value_of_json((#[trigger] m[j]).1, e) is Ok,
        },
{
    lemma_members_gather(m, e, m.len() as int);
    assert(m.subrange(0, m.len() as int) =~= m);
    let each = |i: int| named(m[i].0, value_of_json(m[i].1, e));
    match members_of_json(m, e) {
        Ok(o) => {
            assert forall|i: int| 0 <= i < m.len() implies (#[trigger] o[i]).0 == m[i].0
                && value_of_json(m[i].1, e) == Ok::<ValueV, CtyErrorV>(o[i].1) by {
                assert(each(i) == Ok::<(Seq<char>, ValueV), CtyErrorV>(o[i]));
            }
        },
        Err(err) => {
            let i = choose|i: int|
                0 <= i < m.len() && #[trigger] each(i) == Err::<(Seq<char>, ValueV), CtyErrorV>(err)
                    && forall|j: int| 0 <= j < i ==> #[trigger] each(j) is Ok;
            assert(value_of_json(m[i].1, e) == Err::<ValueV, CtyErrorV>(err));
            assert forall|j: int| 0 <= j < i implies value_of_json((#[trigger] m[j]).1, e) is Ok by {
                assert(each(j) is Ok);
            }
        },
    }
}

proof fn lemma_find_cases(m: Seq<(Seq<char>, JsonV)>, key: Seq<char>)
    ensures
        gather::first_under(m, key, find_member(m, key)) || (find_member(m, key) == m.len()
            && gather::none_under(m, key)),
    decreases m.len(),
{
    if m.len() > 0 && m[0].0 != key {
        let t = m.drop_first();
        lemma_find_cases(t, key);
        assert forall|k: int| 1 <= k < m.len() implies (#[trigger] m[k]) == t[k - 1] by {}
        if gather::first_under(t, key, find_member(t, key)) {
            assert forall|k: int| 0 <= k < find_member(m, key) implies (#[trigger] m[k]).0
                != key by {
                if k > 0 {
                    assert(t[k - 1].0 != key);
                }
            }
        } else {
            assert forall|k: int| 0 <= k < m.len() implies (#[trigger] m[k]).0 != key by {
                if k > 0 {
                    assert(t[k - 1].0 != key);
                }
            }
        }
    }
}

/// What an object has under an attribute.
spec fn attribute(m: Seq<(Seq<char>, JsonV)>, key: Seq<char>, ty: TypeV) -> Result<
    ValueV,
    CtyErrorV,
> {
    let at = find_member(m, key);
    if 0 <= at < m.len() {
        value_of_json(m[at].1, ty)
    } else {
        Ok(ValueV::Null)
    }
}

proof fn lemma_attrs_gather(m: Seq<(Seq<char>, JsonV)>, attrs: Seq<(Seq<char>, TypeV)>, n: int)
    requires
        0 <= n <= attrs.len(),
    ensures
        gather::gathered(
            attrs_of_json(m, attrs.subrange(0, n)),
            n,
            |i: int| named(attrs[i].0, attribute(m, attrs[i].0, attrs[i].1)),
        ),
    decreases n,
{
    if n > 0 {
        lemma_attrs_gather(m, attrs, n - 1);
        let b = attrs.subrange(0, n);
        let a = attrs.subrange(0, n - 1);
        assert(b.subrange(0, n - 1) =~= a);
        gather::lemma_gathered_push(
            attrs_of_json(m, a),
            attrs_of_json(m, b),
            n - 1,
            |i: int| named(attrs[i].0, attribute(m, attrs[i].0, attrs[i].1)),
        );
    }
}

/// An object has all attributes of its type, whatever the JSON names: each is
/// what the member of its name stands for under the attribute's own type, and
/// null exactly where the JSON has no such member or a null. It is refused
/// only where such a member stands for nothing.
pub proof fn law_objects_are_read_by_attribute(
    m: Seq<(Seq<char>, JsonV)>,
    attrs: Seq<(Seq<char>, TypeV)>,
)
    ensures
        match value_of_json(JsonV::Object(m), TypeV::Object(attrs)) {
            Ok(v) => {
                &&& v is Object
                &&& v->Object_0.len() == attrs.len()
                &&& forall|i: int|
                    0 <= i < attrs.len() ==> (#[trigger] v->Object_0[i]).0 == attrs[i].0
                &&& forall|i: int, j: int|
                    0 <= i < attrs.len() && #[trigger] gather::first_under(m, attrs[i].0, j)
                        ==> value_of_json(m[j].1, attrs[i].1) == Ok::<ValueV, CtyErrorV>(
                        v->Object_0[i].1,
                    )
                &&& forall|i: int|
                    0 <= i < attrs.len() && #[trigger] gather::none_under(m, attrs[i].0)
                        ==> v->Object_0[i].1 is Null
            },
            Err(err) => exists|i: int, j: int|
                0 <= i < attrs.len() && #[trigger] gather::first_under(m, attrs[i].0, j)
                    && value_of_json(m[j].1, attrs[i].1) == Err::<ValueV, CtyErrorV>(err)
                    && forall|k: int, l: int|
                    0 <= k < i && #[trigger] gather::first_under(m, attrs[k].0, l) ==> value_of_json(
                        m[l].1,
                        attrs[k].1,
                    ) is Ok,
        },
{
    lemma_attrs_gather(m, attrs, attrs.len() as int);
    assert(attrs.subrange(0, attrs.len() as int) =~= attrs);
    let each = |i: int| named(attrs[i].0, attribute(m, attrs[i].0, attrs[i].1));
    match attrs_of_json(m, attrs) {
        Ok(o) => {
            assert forall|i: int| 0 <= i < attrs.len() implies (#[trigger] o[i]).0 == attrs[i].0
                && attribute(m, attrs[i].0, attrs[i].1) == Ok::<ValueV, CtyErrorV>(o[i].1) by {
                assert(each(i) == Ok::<(Seq<char>, ValueV), CtyErrorV>(o[i]));
            }
            assert forall|i: int, j: int|
                0 <= i < attrs.len() && #[trigger] gather::first_under(
                    m,
                    attrs[i].0,
                    j,
                ) implies value_of_json(m[j].1, attrs[i].1) == Ok::<ValueV, CtyErrorV>(o[i].1) by {
                lemma_find_at(m, attrs[i].0, j);
                assert(o[i].0 == attrs[i].0);
            }
            assert forall|i: int|
                0 <= i < attrs.len() && #[trigger] gather::none_under(
                    m,
                    attrs[i].0,
                ) implies o[i].1 is Null by {
                lemma_find_none(m, attrs[i].0);
                assert(o[i].0 == attrs[i].0);
            }
        },
        Err(err) => {
            let i = choose|i: int|
                0 <= i < attrs.len() && #[trigger] each(i) == Err::<
                    (Seq<char>, ValueV),
                    CtyErrorV,
                >(err) && forall|j: int| 0 <= j < i ==> #[trigger] each(j) is Ok;
            lemma_find_cases(m, attrs[i].0);
            let j = find_member(m, attrs[i].0);
            assert(gather::first_under(m, attrs[i].0, j));
            assert forall|k: int, l: int|
                0 <= k < i && #[trigger] gather::first_under(
                    m,
                    attrs[k].0,
                    l,
                ) implies value_of_json(m[l].1, attrs[k].1) is Ok by {
                assert(each(k) is Ok);
                lemma_find_at(m, attrs[k].0, l);
            }
        },
    }
}

/// Null stands for the null of every type, and every scalar for itself under
/// its own type.
pub proof fn law_scalars_stand_for_themselves(v: JsonV, ty: TypeV)
    ensures
        v is Null ==> value_of_json(v, ty) == Ok::<ValueV, CtyErrorV>(ValueV::Null),
        forall|s: Seq<char>|
            v == JsonV::String(s) && (ty is String || ty is DynamicPseudoType) ==> value_of_json(
                v,
                ty,
            ) == Ok::<ValueV, CtyErrorV>(ValueV::String(s)),
        forall|b: bool|
            v == JsonV::Bool(b) && (ty is Bool || ty is DynamicPseudoType) ==> value_of_json(v, ty)
                == Ok::<ValueV, CtyErrorV>(ValueV::Bool(b)),
        forall|n: Number|
            v == JsonV::Number(n) && (ty is Number || ty is DynamicPseudoType) ==> value_of_json(
                v,
                ty,
            ) == Ok::<ValueV, CtyErrorV>(ValueV::Number(n)),
{
}

/// What has not the shape that its type asks for is refused, in words that
/// end in the JSON itself.
pub proof fn law_wrong_shapes_are_refused(v: JsonV, ty: TypeV)
    requires
        !(v is Null),
        match ty {
            TypeV::String => !(v is String),
            TypeV::Bool => !(v is Bool),
            TypeV::Number => !(v is Number),
            TypeV::List(e) => !(v is Array) && !(v is Object && *e is Object),
            TypeV::SetOf(e) => !(v is Array) && !(v is Object && *e is Object),
            TypeV::Tuple(_) => !(v is Array),
            TypeV::MapOf(_) => !(v is Object),
            TypeV::Object(_) => !(v is Object),
            TypeV::DynamicPseudoType => false,
        },
    ensures
        exists|what: Seq<char>|
            value_of_json(v, ty) == Err::<ValueV, CtyErrorV>(
                CtyErrorV::Type(#[trigger] (what + json::json_text(v))),
            ),
{
    let what = match ty {
        TypeV::String => "expected JSON string for cty string, got "@,
        TypeV::Bool => "expected JSON bool for cty bool, got "@,
        TypeV::Number => "expected JSON number for cty number, got "@,
        TypeV::List(_) => "expected JSON array, got "@,
        TypeV::SetOf(_) => "expected JSON array, got "@,
        TypeV::Tuple(_) => "expected JSON array for tuple, got "@,
        TypeV::MapOf(_) => "expected JSON object for map, got "@,
        _ => "expected JSON object for object, got "@,
    };
    assert(value_of_json(v, ty) == Err::<ValueV, CtyErrorV>(
        CtyErrorV::Type(what + json::json_text(v)),
    ));
}

/// A block written without its brackets is read as a list, or set, of that
/// one block.
pub proof fn law_lone_block_is_one_element(m: Seq<(Seq<char>, JsonV)>, attrs: Seq<(Seq<char>, TypeV)>)
    ensures
        value_of_json(JsonV::Object(m), TypeV::List(Box::new(TypeV::Object(attrs))))
            == value_of_json(
            JsonV::Array(seq![JsonV::Object(m)]),
            TypeV::List(Box::new(TypeV::Object(attrs))),
        ),
        value_of_json(JsonV::Object(m), TypeV::SetOf(Box::new(TypeV::Object(attrs))))
            == value_of_json(
            JsonV::Array(seq![JsonV::Object(m)]),
            TypeV::SetOf(Box::new(TypeV::Object(attrs))),
        ),
{
    let e = TypeV::Object(attrs);
    let v = JsonV::Object(m);
    let xs = seq![v];
    assert(xs.subrange(0, 0) =~= Seq::<JsonV>::empty());
    assert(list_of_json(xs.subrange(0, 0), e) == Ok::<Seq<ValueV>, CtyErrorV>(Seq::empty()));
    assert(xs[xs.len() - 1] == v);
    if let Ok(x) = value_of_json(v, e) {
        assert(list_of_json(xs, e) == Ok::<Seq<ValueV>, CtyErrorV>(Seq::empty().push(x)));
        assert(Seq::<ValueV>::empty().push(x) =~= seq![x]);
    }
}

/// Under the dynamic type an array is a tuple and an object an object, of what
/// their parts stand for.
pub proof fn law_dynamic_goes_by_shape(v: JsonV)
    ensures
        v matches JsonV::Array(xs) ==> {
            &&& inferred(v) is Tuple
            &&& inferred(v)->Tuple_0.len() == xs.len()
            &&& forall|i: int|
                0 <= i < xs.len() ==> #[trigger] inferred(v)->Tuple_0[i] == inferred(xs[i])
        },
        v matches JsonV::Object(m) ==> {
            &&& inferred(v) is Object
            &&& inferred(v)->Object_0.len() == m.len()
            &&& forall|i: int|
                0 <= i < m.len() ==> #[trigger] inferred(v)->Object_0[i] == (
                    m[i].0,
                    inferred(m[i].1),
                )
        },
        value_of_json(v, TypeV::DynamicPseudoType) == Ok::<ValueV, CtyErrorV>(inferred(v)),
{
}

/// Lists, sets and tuples become arrays and maps and objects objects, of what
/// their parts become; what is unknown becomes null.
pub proof fn law_json_forms_keep_parts(v: ValueV)
    ensures
        forall|xs: Seq<ValueV>|
            v == ValueV::List(xs) || v == ValueV::SetOf(xs) || v == ValueV::Tuple(xs) ==> {
                &&& json_of_value(v) is Array
                &&& json_of_value(v)->Array_0.len() == xs.len()
                &&& forall|i: int|
                    0 <= i < xs.len() ==> #[trigger] json_of_value(v)->Array_0[i] == json_of_value(
                        xs[i],
                    )
            },
        forall|m: Seq<(Seq<char>, ValueV)>|
            v == ValueV::MapOf(m) || v == ValueV::Object(m) ==> {
                &&& json_of_value(v) is Object
                &&& json_of_value(v)->Object_0.len() == m.len()
                &&& forall|i: int|
                    0 <= i < m.len() ==> #[trigger] json_of_value(v)->Object_0[i] == (
                        m[i].0,
                        json_of_value(m[i].1),
                    )
            },
        json_of_value(v) is Null <==> v is Null || v is Unknown,
        v matches ValueV::Bool(b) ==> json_of_value(v) == JsonV::Bool(b),
        v matches ValueV::Number(n) ==> json_of_value(v) == JsonV::Number(n),
        v matches ValueV::String(s) ==> json_of_value(v) == JsonV::String(s),
{
}

/// Values and JSON name what they hold in the same way: what was inferred
/// from JSON becomes that JSON again.
pub proof fn law_inferred_json_round_trip(v: JsonV)
    ensures
        json_of_value(inferred(v)) == v,
    decreases v,
{
    match v {
        JsonV::Array(xs) => {
            let ys = inferred(v)->Tuple_0;
            assert forall|i: int| 0 <= i < xs.len() implies json_of_values(ys)[i] == #[trigger] xs[i] by {
                law_inferred_json_round_trip(xs[i]);
                assert(ys[i] == inferred(xs[i]));
            }
            assert(json_of_values(ys) =~= xs);
        },
        JsonV::Object(m) => {
            let o = inferred(v)->Object_0;
            assert forall|i: int| 0 <= i < m.len() implies json_of_members(o)[i] == #[trigger] m[i] by {
                law_inferred_json_round_trip(m[i].1);
                assert(o[i] == (m[i].0, inferred(m[i].1)));
            }
            assert(json_of_members(o) =~= m);
        },
        _ => {},
    }
}

/// JSON that says exactly what the type says: arrays for the sequences, and
/// for an object every attribute of the type and no other member.
pub open spec fn exact_json(v: JsonV, ty: TypeV) -> bool
    decreases v, ty,
{
    ||| v is Null
    ||| match ty {
        TypeV::String => v is String,
        TypeV::Bool => v is Bool,
        TypeV::Number => v is Number,
        TypeV::List(e) => v is Array && forall|i: int|
            #![trigger v->Array_0[i]]
            0 <= i < v->Array_0.len() ==> exact_json(v->Array_0[i], *e),
        TypeV::SetOf(e) => v is Array && forall|i: int|
            #![trigger v->Array_0[i]]
            0 <= i < v->Array_0.len() ==> exact_json(v->Array_0[i], *e),
        TypeV::Tuple(ts) => v is Array && v->Array_0.len() == ts.len() && forall|i: int|
            #![trigger v->Array_0[i]]
            0 <= i < v->Array_0.len() ==> exact_json(v->Array_0[i], ts[i]),
        TypeV::MapOf(e) => v is Object && forall|i: int|
            #![trigger v->Object_0[i]]
            0 <= i < v->Object_0.len() ==> exact_json(v->Object_0[i].1, *e),
        TypeV::Object(attrs) => v is Object && ordmap::sorted(attrs) && v->Object_0.len() == attrs.len()
            && forall|i: int|
            #![trigger v->Object_0[i]]
            0 <= i < v->Object_0.len() ==> v->Object_0[i].0 == attrs[i].0 && exact_json(
                v->Object_0[i].1,
                attrs[i].1,
            ),
        TypeV::DynamicPseudoType => true,
    }
}

/// JSON that says exactly what the type says is converted, and the value
/// becomes that JSON again.
pub proof fn law_json_round_trip(v: JsonV, ty: TypeV)
    requires
        exact_json(v, ty),
    ensures
        value_of_json(v, ty) is Ok,
        json_of_value(value_of_json(v, ty)->Ok_0) == v,
    decreases v, ty,
{
    if v is Null {
    } else {
        match ty {
            TypeV::List(e) => {
                lemma_list_round_trip(v->Array_0, *e, v->Array_0.len() as int);
                assert(v->Array_0.subrange(0, v->Array_0.len() as int) =~= v->Array_0);
            },
            TypeV::SetOf(e) => {
                lemma_list_round_trip(v->Array_0, *e, v->Array_0.len() as int);
                assert(v->Array_0.subrange(0, v->Array_0.len() as int) =~= v->Array_0);
            },
            TypeV::Tuple(ts) => {
                lemma_tuple_round_trip(v->Array_0, ts, v->Array_0.len() as int);
                assert(v->Array_0.subrange(0, v->Array_0.len() as int) =~= v->Array_0);
            },
            TypeV::MapOf(e) => {
                lemma_members_round_trip(v->Object_0, *e, v->Object_0.len() as int);
                assert(v->Object_0.subrange(0, v->Object_0.len() as int) =~= v->Object_0);
            },
            TypeV::Object(attrs) => {
                lemma_attrs_round_trip(v->Object_0, attrs, attrs.len() as int);
                assert(v->Object_0.subrange(0, v->Object_0.len() as int) =~= v->Object_0);
                assert(attrs.subrange(0, attrs.len() as int) =~= attrs);
            },
            TypeV::DynamicPseudoType => {
                law_inferred_json_round_trip(v);
            },
            _ => {},
        }
    }
}

proof fn lemma_list_round_trip(xs: Seq<JsonV>, e: TypeV, n: int)
    requires
        0 <= n <= xs.len(),
        forall|i: int| #![trigger xs[i]] 0 <= i < xs.len() ==> exact_json(xs[i], e),
    ensures
        list_of_json(xs.subrange(0, n), e) is Ok,
        json_of_values(list_of_json(xs.subrange(0, n), e)->Ok_0) == xs.subrange(0, n),
    decreases xs, e, n,
{
    let a = xs.subrange(0, n);
    if n == 0 {
        assert(json_of_values(Seq::empty()) =~= a);
    } else {
        lemma_list_round_trip(xs, e, n - 1);
        assert(a.subrange(0, n - 1) =~= xs.subrange(0, n - 1));
        assert(a[n - 1] == xs[n - 1]);
        law_json_round_trip(xs[n - 1], e);
        let prev = list_of_json(xs.subrange(0, n - 1), e)->Ok_0;
        let x = value_of_json(xs[n - 1], e)->Ok_0;
        assert(json_of_values(prev).len() == prev.len());
        assert(json_of_values(prev.push(x)) =~= json_of_values(prev).push(json_of_value(x)));
        assert(json_of_values(prev).push(xs[n - 1]) =~= a);
    }
}

proof fn lemma_tuple_round_trip(xs: Seq<JsonV>, ts: Seq<TypeV>, n: int)
    requires
        0 <= n <= xs.len(),
        xs.len() == ts.len(),
        forall|i: int| #![trigger xs[i]] 0 <= i < xs.len() ==> exact_json(xs[i], ts[i]),
    ensures
        tuple_of_json(xs.subrange(0, n), ts) is Ok,
        json_of_values(tuple_of_json(xs.subrange(0, n), ts)->Ok_0) == xs.subrange(0, n),
    decreases xs, ts, n,
{
    let a = xs.subrange(0, n);
    if n == 0 {
        assert(json_of_values(Seq::empty()) =~= a);
    } else {
        lemma_tuple_round_trip(xs, ts, n - 1);
        assert(a.subrange(0, n - 1) =~= xs.subrange(0, n - 1));
        assert(a[n - 1] == xs[n - 1]);
        law_json_round_trip(xs[n - 1], ts[n - 1]);
        let prev = tuple_of_json(xs.subrange(0, n - 1), ts)->Ok_0;
        let x = value_of_json(xs[n - 1], ts[n - 1])->Ok_0;
        assert(json_of_values(prev).len() == prev.len());
        assert(json_of_values(prev.push(x)) =~= json_of_values(prev).push(json_of_value(x)));
        assert(json_of_values(prev).push(xs[n - 1]) =~= a);
    }
}

proof fn lemma_members_round_trip(m: Seq<(Seq<char>, JsonV)>, e: TypeV, n: int)
    requires
        0 <= n <= m.len(),
        forall|i: int| #![trigger m[i]] 0 <= i < m.len() ==> exact_json(m[i].1, e),
    ensures
        members_of_json(m.subrange(0, n), e) is Ok,
        json_of_members(members_of_json(m.subrange(0, n), e)->Ok_0) == m.subrange(0, n),
    decreases m, e, n,
{
    let a = m.subrange(0, n);
    if n == 0 {
        assert(json_of_members(Seq::empty()) =~= a);
    } else {
        lemma_members_round_trip(m, e, n - 1);
        assert(a.subrange(0, n - 1) =~= m.subrange(0, n - 1));
        assert(a[n - 1] == m[n - 1]);
        law_json_round_trip(m[n - 1].1, e);
        let prev = members_of_json(m.subrange(0, n - 1), e)->Ok_0;
        let x = (m[n - 1].0, value_of_json(m[n - 1].1, e)->Ok_0);
        assert(json_of_members(prev).len() == prev.len());
        assert(json_of_members(prev.push(x)) =~= json_of_members(prev).push((x.0, json_of_value(x.1))));
        assert(json_of_members(prev).push(m[n - 1]) =~= a);
    }
}

proof fn lemma_attrs_round_trip(m: Seq<(Seq<char>, JsonV)>, attrs: Seq<(Seq<char>, TypeV)>, n: int)
    requires
        0 <= n <= attrs.len(),
        m.len() == attrs.len(),
        ordmap::sorted(attrs),
        forall|i: int|
            #![trigger m[i]]
            0 <= i < m.len() ==> m[i].0 == attrs[i].0 && exact_json(m[i].1, attrs[i].1),
    ensures
        attrs_of_json(m, attrs.subrange(0, n)) is Ok,
        json_of_members(attrs_of_json(m, attrs.subrange(0, n))->Ok_0) == m.subrange(0, n),
    decreases m, attrs, n,
{
    let a = attrs.subrange(0, n);
    if n == 0 {
        assert(json_of_members(Seq::empty()) =~= m.subrange(0, 0));
    } else {
        lemma_attrs_round_trip(m, attrs, n - 1);
        assert(a.subrange(0, n - 1) =~= attrs.subrange(0, n - 1));
        assert(a[n - 1] == attrs[n - 1]);
        let key = attrs[n - 1].0;
        assert forall|j: int| 0 <= j < n - 1 implies (#[trigger] m[j]).0 != key by {
            assert(text::lex_lt(attrs[j].0, attrs[n - 1].0));
            text::lemma_lex_irreflexive(key);
        }
        assert(m[n - 1].0 == key);
        lemma_find_at(m, key, n - 1);
        law_json_round_trip(m[n - 1].1, attrs[n - 1].1);
        let prev = attrs_of_json(m, attrs.subrange(0, n - 1))->Ok_0;
        let x = (key, value_of_json(m[n - 1].1, attrs[n - 1].1)->Ok_0);
        assert(json_of_members(prev).len() == prev.len());
        assert(json_of_members(prev.push(x)) =~= json_of_members(prev).push((x.0, json_of_value(x.1))));
        assert(json_of_members(prev).push(m[n - 1]) =~= m.subrange(0, n));
    }
}

proof fn lemma_inferred_known(v: JsonV)
    ensures
        value::fully_known(inferred(v)),
    decreases v,
{
    match v {
        JsonV::Array(xs) => {
            let ys = inferred(v)->Tuple_0;
            assert forall|i: int| #![trigger ys[i]] 0 <= i < ys.len() implies value::fully_known(
                ys[i],
            ) by {
                lemma_inferred_known(xs[i]);
            }
        },
        JsonV::Object(m) => {
            let o = inferred(v)->Object_0;
            assert forall|i: int| #![trigger o[i]] 0 <= i < o.len() implies value::fully_known(
                o[i].1,
            ) by {
                lemma_inferred_known(m[i].1);
            }
        },
        _ => {},
    }
}

/// What is read from JSON is known in all its parts: JSON has no word for what
/// is unknown.
pub proof fn law_json_is_known(v: JsonV, ty: TypeV)
    ensures
        value_of_json(v, ty) matches Ok(x) ==> value::fully_known(x),
    decreases v, ty,
{
    if let Ok(x) = value_of_json(v, ty) {
        if v is Null {
        } else {
            match (ty, v) {
                (TypeV::List(e), JsonV::Array(xs)) => {
                    law_lists_are_read_by_element(xs, *e);
                    let ys = x->List_0;
                    let each = |i: int| value_of_json(xs[i], *e);
                    assert forall|i: int| #![trigger ys[i]] 0 <= i < ys.len() implies
                        value::fully_known(ys[i]) by {
                        assert(each(i) == Ok::<ValueV, CtyErrorV>(ys[i]));
                        law_json_is_known(xs[i], *e);
                    }
                },
                (TypeV::List(e), JsonV::Object(m)) => {
                    law_json_is_known(v, *e);
                    let ys = x->List_0;
                    assert(ys[0] == value_of_json(v, *e)->Ok_0);
                    assert(ys.len() == 1);
                },
                (TypeV::SetOf(e), JsonV::Array(xs)) => {
                    law_lists_are_read_by_element(xs, *e);
                    let ys = x->SetOf_0;
                    let each = |i: int| value_of_json(xs[i], *e);
                    assert forall|i: int| #![trigger ys[i]] 0 <= i < ys.len() implies
                        value::fully_known(ys[i]) by {
                        assert(each(i) == Ok::<ValueV, CtyErrorV>(ys[i]));
                        law_json_is_known(xs[i], *e);
                    }
                },
                (TypeV::SetOf(e), JsonV::Object(m)) => {
                    law_json_is_known(v, *e);
                    let ys = x->SetOf_0;
                    assert(ys[0] == value_of_json(v, *e)->Ok_0);
                    assert(ys.len() == 1);
                },
                (TypeV::Tuple(ts), JsonV::Array(xs)) => {
                    law_tuples_are_read_by_place(xs, ts);
                    let ys = x->Tuple_0;
                    let each = |i: int| value_of_json(xs[i], ts[i]);
                    assert forall|i: int| #![trigger ys[i]] 0 <= i < ys.len() implies
                        value::fully_known(ys[i]) by {
                        assert(each(i) == Ok::<ValueV, CtyErrorV>(ys[i]));
                        law_json_is_known(xs[i], ts[i]);
                    }
                },
                (TypeV::MapOf(e), JsonV::Object(m)) => {
                    law_maps_are_read_by_member(m, *e);
                    let o = x->MapOf_0;
                    assert forall|i: int| #![trigger o[i]] 0 <= i < o.len() implies
                        value::fully_known(o[i].1) by {
                        law_json_is_known(m[i].1, *e);
                    }
                },
                (TypeV::Object(attrs), JsonV::Object(m)) => {
                    law_objects_are_read_by_attribute(m, attrs);
                    let o = x->Object_0;
                    assert forall|i: int| #![trigger o[i]] 0 <= i < o.len() implies
                        value::fully_known(o[i].1) by {
                        lemma_find_cases(m, attrs[i].0);
                        let j = find_member(m, attrs[i].0);
                        if gather::first_under(m, attrs[i].0, j) {
                            law_json_is_known(m[j].1, attrs[i].1);
                        } else {
                            assert(gather::none_under(m, attrs[i].0));
                        }
                    }
                },
                (TypeV::DynamicPseudoType, _) => {
                    lemma_inferred_known(v);
                },
                _ => {},
            }
        }
    }
}

} // verus!
