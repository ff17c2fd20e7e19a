//! The types, and their canonical JSON form:
//!
//! ```text
//! "string" | "number" | "bool" | "dynamic"
//! ["list", <type>]   ["set", <type>]   ["map", <type>]
//! ["object", { "<attr>": <type>, … }]
//! ["tuple", [ <type>, … ]]
//! ```
use vstd::prelude::*;
use vstd::string::*;
use crate::cty;
use crate::cty::{type_error, CtyError, CtyErrorV};
use crate::gather;
use crate::json;
use crate::json::{Json, JsonV};
use crate::ordmap;
use crate::ordmap::StrMap;
use crate::text;
use crate::text::{debug_text, same};

verus! {

/// A type. The attributes of an object type are kept in name order.
#[derive(Debug, PartialEq, Eq)]
pub enum CtyType {
    String,
    Number,
    Bool,
    List(Box<CtyType>),
    SetOf(Box<CtyType>),
    MapOf(Box<CtyType>),
    Object(StrMap<CtyType>),
    Tuple(Vec<CtyType>),
    /// Any type: the value carries its own.
    DynamicPseudoType,
}

/// What a [`CtyType`] holds.
pub enum TypeV {
    String,
    Number,
    Bool,
    List(Box<TypeV>),
    SetOf(Box<TypeV>),
    MapOf(Box<TypeV>),
    Object(Seq<(Seq<char>, TypeV)>),
    Tuple(Seq<TypeV>),
    DynamicPseudoType,
}

impl CtyType {
    pub open spec fn model(&self) -> TypeV
        decreases self,
    {
        match self {
            CtyType::String => TypeV::String,
            CtyType::Number => TypeV::Number,
            CtyType::Bool => TypeV::Bool,
            CtyType::List(e) => TypeV::List(Box::new(e.model())),
            CtyType::SetOf(e) => TypeV::SetOf(Box::new(e.model())),
            CtyType::MapOf(e) => TypeV::MapOf(Box::new(e.model())),
            CtyType::Object(m) => TypeV::Object(
                Seq::new(
                    m.entries@.len(),
                    |i: int|
                        if 0 <= i < m.entries@.len() {
                            (m.entries@[i].0@, m.entries@[i].1.model())
                        } else {
                            (Seq::empty(), TypeV::Bool)
                        },
                ),
            ),
            CtyType::Tuple(xs) => TypeV::Tuple(
                Seq::new(
                    xs@.len(),
                    |i: int|
                        if 0 <= i < xs@.len() {
                            xs@[i].model()
                        } else {
                            TypeV::Bool
                        },
                ),
            ),
            CtyType::DynamicPseudoType => TypeV::DynamicPseudoType,
        }
    }
}

impl View for CtyType {
    type V = TypeV;

    open spec fn view(&self) -> TypeV {
        self.model()
    }
}

/// The types of a list.
pub open spec fn types_view(xs: Seq<CtyType>) -> Seq<TypeV> {
    Seq::new(xs.len(), |i: int| xs[i]@)
}

/// The attributes of an object type.
pub open spec fn attrs_view(m: Seq<(Seq<char>, CtyType)>) -> Seq<(Seq<char>, TypeV)> {
    ordmap::map_vals(m, |t: CtyType| t@)
}

pub proof fn lemma_tuple_type_view(xs: Vec<CtyType>)
    ensures
        CtyType::Tuple(xs)@ == TypeV::Tuple(types_view(xs@)),
{
    assert(CtyType::Tuple(xs)@->Tuple_0 =~= types_view(xs@));
}

pub proof fn lemma_object_type_view(m: StrMap<CtyType>)
    ensures
        CtyType::Object(m)@ == TypeV::Object(attrs_view(m@)),
{
    assert(CtyType::Object(m)@->Object_0 =~= attrs_view(m@));
}

/// Every object type in it has its attributes in name order.
pub open spec fn type_wf(t: TypeV) -> bool
    decreases t,
{
    match t {
        TypeV::List(e) => type_wf(*e),
        TypeV::SetOf(e) => type_wf(*e),
        TypeV::MapOf(e) => type_wf(*e),
        TypeV::Object(m) => ordmap::sorted(m) && forall|i: int|
            #![trigger m[i]]
            0 <= i < m.len() ==> type_wf(m[i].1),
        TypeV::Tuple(xs) => forall|i: int| #![trigger xs[i]] 0 <= i < xs.len() ==> type_wf(xs[i]),
        _ => true,
    }
}

// ── The JSON form ──────────────────────────────────────────────────

/// The JSON form of a type.
pub open spec fn type_json(t: TypeV) -> JsonV
    decreases t,
{
    match t {
        TypeV::String => JsonV::String("string"@),
        TypeV::Number => JsonV::String("number"@),
        TypeV::Bool => JsonV::String("bool"@),
        TypeV::DynamicPseudoType => JsonV::String("dynamic"@),
        TypeV::List(e) => JsonV::Array(seq![JsonV::String("list"@), type_json(*e)]),
        TypeV::SetOf(e) => JsonV::Array(seq![JsonV::String("set"@), type_json(*e)]),
        TypeV::MapOf(e) => JsonV::Array(seq![JsonV::String("map"@), type_json(*e)]),
        TypeV::Object(m) => JsonV::Array(
            seq![
                JsonV::String("object"@),
                JsonV::Object(
                    Seq::new(
                        m.len(),
                        |i: int|
                            if 0 <= i < m.len() {
                                (m[i].0, type_json(m[i].1))
                            } else {
                                (Seq::empty(), JsonV::Null)
                            },
                    ),
                ),
            ],
        ),
        TypeV::Tuple(xs) => JsonV::Array(
            seq![
                JsonV::String("tuple"@),
                JsonV::Array(
                    Seq::new(
                        xs.len(),
                        |i: int|
                            if 0 <= i < xs.len() {
                                type_json(xs[i])
                            } else {
                                JsonV::Null
                            },
                    ),
                ),
            ],
        ),
    }
}

/// The type that a JSON value stands for.
pub open spec fn type_of_json(v: JsonV) -> Result<TypeV, CtyErrorV>
    decreases v,
{
    match v {
        JsonV::String(s) => if s == "string"@ {
            Ok(TypeV::String)
        } else if s == "number"@ {
            Ok(TypeV::Number)
        } else if s == "bool"@ {
            Ok(TypeV::Bool)
        } else if s == "dynamic"@ {
            Ok(TypeV::DynamicPseudoType)
        } else {
            Err(CtyErrorV::Type("unknown primitive type "@ + text::str_debug(s)))
        },
        JsonV::Array(items) => if items.len() == 0 {
            Err(CtyErrorV::Type("not a cty type: "@ + json::json_text(v)))
        } else {
            match items[0] {
                JsonV::String(kind) => if kind == "list"@ || kind == "set"@ || kind == "map"@ {
                    if items.len() < 2 {
                        Err(CtyErrorV::Type("collection type missing element type"@))
                    } else {
                        match type_of_json(items[1]) {
                            Ok(e) => Ok(collection(kind, e)),
                            Err(e) => Err(e),
                        }
                    }
                } else if kind == "object"@ {
                    if items.len() >= 2 && items[1] is Object {
                        match attrs_of_json(items[1]->Object_0) {
                            Ok(m) => Ok(TypeV::Object(m)),
                            Err(e) => Err(e),
                        }
                    } else {
                        Err(CtyErrorV::Type("object type needs an attr map"@))
                    }
                } else if kind == "tuple"@ {
                    if items.len() >= 2 && items[1] is Array {
                        match types_of_json(items[1]->Array_0) {
                            Ok(xs) => Ok(TypeV::Tuple(xs)),
                            Err(e) => Err(e),
                        }
                    } else {
                        Err(CtyErrorV::Type("tuple type needs a type list"@))
                    }
                } else {
                    Err(CtyErrorV::Type("unknown type kind "@ + text::str_debug(kind)))
                },
                _ => Err(CtyErrorV::Type("type kind tag must be a string"@)),
            }
        },
        _ => Err(CtyErrorV::Type("not a cty type: "@ + json::json_text(v))),
    }
}

/// The collection type of a kind.
pub open spec fn collection(kind: Seq<char>, e: TypeV) -> TypeV {
    if kind == "list"@ {
        TypeV::List(Box::new(e))
    } else if kind == "set"@ {
        TypeV::SetOf(Box::new(e))
    } else {
        TypeV::MapOf(Box::new(e))
    }
}

/// The types that the members of an object stand for, up to the first that
/// stands for none.
pub open spec fn attrs_of_json(m: Seq<(Seq<char>, JsonV)>) -> Result<Seq<(Seq<char>, TypeV)>, CtyErrorV>
    decreases m,
{
    if m.len() == 0 {
        Ok(Seq::empty())
    } else {
        match attrs_of_json(m.subrange(0, m.len() - 1)) {
            Ok(prev) => match type_of_json(m[m.len() - 1].1) {
                Ok(t) => Ok(ordmap::put(prev, m[m.len() - 1].0, t)),
                Err(e) => Err(e),
            },
            Err(e) => Err(e),
        }
    }
}

/// The types that the elements of an array stand for, up to the first that
/// stands for none.
pub open spec fn types_of_json(xs: Seq<JsonV>) -> Result<Seq<TypeV>, CtyErrorV>
    decreases xs,
{
    if xs.len() == 0 {
        Ok(Seq::empty())
    } else {
        match types_of_json(xs.subrange(0, xs.len() - 1)) {
            Ok(prev) => match type_of_json(xs[xs.len() - 1]) {
                Ok(t) => Ok(prev.push(t)),
                Err(e) => Err(e),
            },
            Err(e) => Err(e),
        }
    }
}

impl CtyType {
    pub fn list(elem: CtyType) -> (r: Self)
        ensures
            r@ == TypeV::List(Box::new(elem@)),
    {
        CtyType::List(Box::new(elem))
    }

    pub fn set(elem: CtyType) -> (r: Self)
        ensures
            r@ == TypeV::SetOf(Box::new(elem@)),
    {
        CtyType::SetOf(Box::new(elem))
    }

    pub fn map(elem: CtyType) -> (r: Self)
        ensures
            r@ == TypeV::MapOf(Box::new(elem@)),
    {
        CtyType::MapOf(Box::new(elem))
    }

    /// An object type from its attributes; of two with one name the later
    /// one stays.
    #[verifier::loop_isolation(false)]
    pub fn object(attrs: Vec<(String, CtyType)>) -> (r: Self)
        ensures
            r@ == TypeV::Object(ordmap::collect(named_types(attrs@))),
    {
        let mut m: StrMap<CtyType> = StrMap::new();
        let mut i: usize = 0;
        proof {
            assert(named_types(attrs@).take(0) =~= Seq::empty());
            assert(attrs_view(m@) =~= ordmap::collect(named_types(attrs@).take(0)));
        }
        while i < attrs.len()
            invariant
                i <= attrs@.len(),
                attrs_view(m@) == ordmap::collect(named_types(attrs@).take(i as int)),
            decreases attrs.len() - i,
        {
            let t = attrs[i].1.clone();
            proof {
                ordmap::lemma_map_vals_put(m@, |t: CtyType| t@, attrs@[i as int].0@, t);
                let b = named_types(attrs@).take(i + 1);
                assert(b.drop_last() =~= named_types(attrs@).take(i as int));
            }
            m.insert(attrs[i].0.clone(), t);
            i += 1;
        }
        proof {
            assert(named_types(attrs@).take(attrs@.len() as int) =~= named_types(attrs@));
            lemma_object_type_view(m);
        }
        CtyType::Object(m)
    }

    /// The canonical JSON form.
    #[verifier::loop_isolation(false)]
    pub fn to_json(&self) -> (r: Json)
        ensures
            r@ == type_json(self@),
        decreases self,
    {
        match self {
            CtyType::String => Json::string("string"),
            CtyType::Number => Json::string("number"),
            CtyType::Bool => Json::string("bool"),
            CtyType::DynamicPseudoType => Json::string("dynamic"),
            CtyType::List(e) => tagged("list", e.to_json()),
            CtyType::SetOf(e) => tagged("set", e.to_json()),
            CtyType::MapOf(e) => tagged("map", e.to_json()),
            CtyType::Object(m) => {
                let mut out: Vec<(String, Json)> = Vec::new();
                let mut i: usize = 0;
                while i < m.entries.len()
                    invariant
                        i <= m.entries@.len(),
                        out@.len() == i,
                        forall|j: int|
                            0 <= j < i ==> (#[trigger] out@[j]).0@ == m.entries@[j].0@ && out@[j].1@
                                == type_json(m.entries@[j].1@),
                    decreases m.entries.len() - i,
                {
                    proof {
                        assert(decreases_to!(m.entries => m.entries@[i as int]));
                    }
                    let t = m.entries[i].1.to_json();
                    out.push((m.entries[i].0.clone(), t));
                    i += 1;
                }
                let o = StrMap { entries: out };
                proof {
                    lemma_object_type_view(*m);
                    json::lemma_object_view(o);
                    assert(json::object_view(o@) =~= type_json(self@)->Array_0[1]->Object_0);
                }
                tagged("object", Json::Object(o))
            },
            CtyType::Tuple(xs) => {
                let mut out: Vec<Json> = Vec::new();
                let mut i: usize = 0;
                while i < xs.len()
                    invariant
                        i <= xs@.len(),
                        out@.len() == i,
                        forall|j: int| 0 <= j < i ==> (#[trigger] out@[j])@ == type_json(xs@[j]@),
                    decreases xs.len() - i,
                {
                    proof {
                        assert(decreases_to!(*xs => xs@[i as int]));
                    }
                    let t = xs[i].to_json();
                    out.push(t);
                    i += 1;
                }
                proof {
                    lemma_tuple_type_view(*xs);
                    json::lemma_array_view(out);
                    assert(json::list_view(out@) =~= type_json(self@)->Array_0[1]->Array_0);
                }
                tagged("tuple", Json::Array(out))
            },
        }
    }

    /// Parse the canonical JSON form.
    #[verifier::loop_isolation(false)]
    pub fn from_json(v: &Json) -> (r: Result<Self, CtyError>)
        ensures
            cty::outcome(r) == type_of_json(v@),
        decreases v,
    {
        match v {
            Json::String(s) => {
                if same(s.as_str(), "string") {
                    Ok(CtyType::String)
                } else if same(s.as_str(), "number") {
                    Ok(CtyType::Number)
                } else if same(s.as_str(), "bool") {
                    Ok(CtyType::Bool)
                } else if same(s.as_str(), "dynamic") {
                    Ok(CtyType::DynamicPseudoType)
                } else {
                    Err(type_error("unknown primitive type ", debug_text(s.as_str()).as_str()))
                }
            },
            Json::Array(items) => {
                proof {
                    json::lemma_array_view(*items);
                }
                if items.len() == 0 {
                    return Err(type_error("not a cty type: ", v.text().as_str()));
                }
                proof {
                    assert(json::list_view(items@)[0] == items@[0]@);
                }
                let kind = match items[0].as_str() {
                    Some(k) => k,
                    None => {
                        return Err(CtyError::Type("type kind tag must be a string".to_owned()));
                    },
                };
                let is_list = same(kind, "list");
                let is_set = same(kind, "set");
                let is_map = same(kind, "map");
                if is_list || is_set || is_map {
                    return match Self::nth_type(items, 1) {
                        Ok(e) => if is_list {
                            Ok(CtyType::list(e))
                        } else if is_set {
                            Ok(CtyType::set(e))
                        } else {
                            Ok(CtyType::map(e))
                        },
                        Err(e) => Err(e),
                    };
                }
                if same(kind, "object") {
                    if items.len() >= 2 {
                        proof {
                            assert(decreases_to!(*items => items@[1]));
                            assert(json::list_view(items@)[1] == items@[1]@);
                        }
                        if let Json::Object(m) = &items[1] {
                            proof {
                                json::lemma_object_view(*m);
                            }
                            return match Self::attrs_from_json(m) {
                                Ok(attrs) => {
                                    proof {
                                        lemma_object_type_view(attrs);
                                    }
                                    Ok(CtyType::Object(attrs))
                                },
                                Err(e) => Err(e),
                            };
                        }
                    }
                    return Err(CtyError::Type("object type needs an attr map".to_owned()));
                }
                if same(kind, "tuple") {
                    if items.len() >= 2 {
                        proof {
                            assert(decreases_to!(*items => items@[1]));
                            assert(json::list_view(items@)[1] == items@[1]@);
                        }
                        if let Json::Array(xs) = &items[1] {
                            proof {
                                json::lemma_array_view(*xs);
                            }
                            return match Self::types_from_json(xs) {
                                Ok(types) => {
                                    proof {
                                        lemma_tuple_type_view(types);
                                    }
                                    Ok(CtyType::Tuple(types))
                                },
                                Err(e) => Err(e),
                            };
                        }
                    }
                    return Err(CtyError::Type("tuple type needs a type list".to_owned()));
                }
                Err(type_error("unknown type kind ", debug_text(kind).as_str()))
            },
            _ => Err(type_error("not a cty type: ", v.text().as_str())),
        }
    }

    /// The type that element `n` stands for.
    fn nth_type(items: &Vec<Json>, n: usize) -> (r: Result<CtyType, CtyError>)
        ensures
            n < items@.len() ==> cty::outcome(r) == type_of_json(items@[n as int]@),
            n >= items@.len() ==> cty::outcome(r) == Err::<TypeV, CtyErrorV>(
                CtyErrorV::Type("collection type missing element type"@),
            ),
        decreases items,
    {
        if n >= items.len() {
            return Err(CtyError::Type("collection type missing element type".to_owned()));
        }
        proof {
            assert(decreases_to!(*items => items@[n as int]));
        }
        CtyType::from_json(&items[n])
    }

    /// The types that the members of an object stand for.
    #[verifier::loop_isolation(false)]
    fn attrs_from_json(m: &StrMap<Json>) -> (r: Result<StrMap<CtyType>, CtyError>)
        ensures
            match r {
                Ok(attrs) => attrs_of_json(json::object_view(m@)) == Ok::<
                    Seq<(Seq<char>, TypeV)>,
                    CtyErrorV,
                >(attrs_view(attrs@)),
                Err(e) => attrs_of_json(json::object_view(m@)) == Err::<
                    Seq<(Seq<char>, TypeV)>,
                    CtyErrorV,
                >(e@),
            },
        decreases m,
    {
        let mut attrs: StrMap<CtyType> = StrMap::new();
        let mut i: usize = 0;
        let ghost all = json::object_view(m@);
        proof {
            assert(all.subrange(0, 0) =~= Seq::empty());
            assert(attrs_view(attrs@) =~= Seq::empty());
        }
        while i < m.entries.len()
            invariant
                i <= m.entries@.len(),
                attrs_of_json(all.subrange(0, i as int)) == Ok::<
                    Seq<(Seq<char>, TypeV)>,
                    CtyErrorV,
                >(attrs_view(attrs@)),
            decreases m.entries.len() - i,
        {
            proof {
                assert(decreases_to!(m.entries => m.entries@[i as int]));
                let b = all.subrange(0, i + 1);
                assert(b.subrange(0, i as int) =~= all.subrange(0, i as int));
                assert(b[i as int] == (m.entries@[i as int].0@, m.entries@[i as int].1@));
            }
            match CtyType::from_json(&m.entries[i].1) {
                Ok(t) => {
                    proof {
                        ordmap::lemma_map_vals_put(
                            attrs@,
                            |t: CtyType| t@,
                            m.entries@[i as int].0@,
                            t,
                        );
                    }
                    attrs.insert(m.entries[i].0.clone(), t);
                },
                Err(e) => {
                    proof {
                        lemma_attrs_error(all, i + 1);
                    }
                    return Err(e);
                },
            }
            i += 1;
        }
        proof {
            assert(all.subrange(0, all.len() as int) =~= all);
        }
        Ok(attrs)
    }

    /// The types that the elements of an array stand for.
    #[verifier::loop_isolation(false)]
    fn types_from_json(xs: &Vec<Json>) -> (r: Result<Vec<CtyType>, CtyError>)
        ensures
            match r {
                Ok(types) => types_of_json(json::list_view(xs@)) == Ok::<Seq<TypeV>, CtyErrorV>(
                    types_view(types@),
                ),
                Err(e) => types_of_json(json::list_view(xs@)) == Err::<Seq<TypeV>, CtyErrorV>(e@),
            },
        decreases xs,
    {
        let mut types: Vec<CtyType> = Vec::new();
        let mut i: usize = 0;
        let ghost all = json::list_view(xs@);
        proof {
            assert(all.subrange(0, 0) =~= Seq::empty());
            assert(types_view(types@) =~= Seq::empty());
        }
        while i < xs.len()
            invariant
                i <= xs@.len(),
                types_of_json(all.subrange(0, i as int)) == Ok::<Seq<TypeV>, CtyErrorV>(
                    types_view(types@),
                ),
            decreases xs.len() - i,
        {
            proof {
                assert(decreases_to!(*xs => xs@[i as int]));
                let b = all.subrange(0, i + 1);
                assert(b.subrange(0, i as int) =~= all.subrange(0, i as int));
                assert(b[i as int] == xs@[i as int]@);
            }
            match CtyType::from_json(&xs[i]) {
                Ok(t) => {
                    proof {
                        assert(types_view(types@.push(t)) =~= types_view(types@).push(t@));
                    }
                    types.push(t);
                },
                Err(e) => {
                    proof {
                        lemma_types_error(all, i + 1);
                    }
                    return Err(e);
                },
            }
            i += 1;
        }
        proof {
            assert(all.subrange(0, all.len() as int) =~= all);
        }
        Ok(types)
    }
}

/// `[tag, v]`.
fn tagged(tag: &str, v: Json) -> (r: Json)
    ensures
        r@ == JsonV::Array(seq![JsonV::String(tag@), v@]),
{
    let t = Json::string(tag);
    let xs = vec![t, v];
    proof {
        json::lemma_array_view(xs);
        assert(json::list_view(xs@) =~= seq![JsonV::String(tag@), v@]);
    }
    Json::Array(xs)
}

/// Named types, by what they hold.
pub open spec fn named_types(m: Seq<(String, CtyType)>) -> Seq<(Seq<char>, TypeV)> {
    Seq::new(m.len(), |i: int| (m[i].0@, m[i].1@))
}

/// An error in a prefix is the error of the whole.
proof fn lemma_attrs_error(m: Seq<(Seq<char>, JsonV)>, n: int)
    requires
        0 <= n <= m.len(),
        attrs_of_json(m.subrange(0, n)) is Err,
    ensures
        attrs_of_json(m) == attrs_of_json(m.subrange(0, n)),
    decreases m.len() - n,
{
    if n == m.len() {
        assert(m.subrange(0, n) =~= m);
    } else {
        let b = m.subrange(0, n + 1);
        assert(b.subrange(0, n) =~= m.subrange(0, n));
        lemma_attrs_error(m, n + 1);
    }
}

/// An error in a prefix is the error of the whole.
proof fn lemma_types_error(xs: Seq<JsonV>, n: int)
    requires
        0 <= n <= xs.len(),
        types_of_json(xs.subrange(0, n)) is Err,
    ensures
        types_of_json(xs) == types_of_json(xs.subrange(0, n)),
    decreases xs.len() - n,
{
    if n == xs.len() {
        assert(xs.subrange(0, n) =~= xs);
    } else {
        let b = xs.subrange(0, n + 1);
        assert(b.subrange(0, n) =~= xs.subrange(0, n));
        lemma_types_error(xs, n + 1);
    }
}

impl Clone for CtyType {
    #[verifier::loop_isolation(false)]
    fn clone(&self) -> (r: Self)
        ensures
            r@ == self@,
        decreases self,
    {
        match self {
            CtyType::String => CtyType::String,
            CtyType::Number => CtyType::Number,
            CtyType::Bool => CtyType::Bool,
            CtyType::DynamicPseudoType => CtyType::DynamicPseudoType,
            CtyType::List(e) => {
                let t: CtyType = (**e).clone();
                CtyType::list(t)
            },
            CtyType::SetOf(e) => {
                let t: CtyType = (**e).clone();
                CtyType::set(t)
            },
            CtyType::MapOf(e) => {
                let t: CtyType = (**e).clone();
                CtyType::map(t)
            },
            CtyType::Object(m) => {
                let mut out: Vec<(String, CtyType)> = Vec::new();
                let mut i: usize = 0;
                while i < m.entries.len()
                    invariant
                        i <= m.entries@.len(),
                        out@.len() == i,
                        forall|j: int|
                            0 <= j < i ==> (#[trigger] out@[j]).0@ == m.entries@[j].0@ && out@[j].1@
                                == m.entries@[j].1@,
                    decreases m.entries.len() - i,
                {
                    proof {
                        assert(decreases_to!(m.entries => m.entries@[i as int]));
                    }
                    let t: CtyType = m.entries[i].1.clone();
                    out.push((m.entries[i].0.clone(), t));
                    i += 1;
                }
                let o = StrMap { entries: out };
                proof {
                    lemma_object_type_view(*m);
                    lemma_object_type_view(o);
                    assert(attrs_view(o@) =~= attrs_view(m@));
                }
                CtyType::Object(o)
            },
            CtyType::Tuple(xs) => {
                let mut out: Vec<CtyType> = Vec::new();
                let mut i: usize = 0;
                while i < xs.len()
                    invariant
                        i <= xs@.len(),
                        out@.len() == i,
                        forall|j: int| 0 <= j < i ==> (#[trigger] out@[j])@ == xs@[j]@,
                    decreases xs.len() - i,
                {
                    proof {
                        assert(decreases_to!(*xs => xs@[i as int]));
                    }
                    let t: CtyType = xs[i].clone();
                    out.push(t);
                    i += 1;
                }
                proof {
                    lemma_tuple_type_view(*xs);
                    lemma_tuple_type_view(out);
                    assert(types_view(out@) =~= types_view(xs@));
                }
                CtyType::Tuple(out)
            },
        }
    }
}

// ── Laws ───────────────────────────────────────────────────────────

/// The tags of the JSON form are eight different words.
proof fn lemma_tags_differ()
    ensures
        "string"@ != "number"@,
        "string"@ != "bool"@,
        "string"@ != "dynamic"@,
        "number"@ != "bool"@,
        "number"@ != "dynamic"@,
        "bool"@ != "dynamic"@,
        "list"@ != "set"@,
        "list"@ != "map"@,
        "list"@ != "object"@,
        "list"@ != "tuple"@,
        "set"@ != "map"@,
        "set"@ != "object"@,
        "set"@ != "tuple"@,
        "map"@ != "object"@,
        "map"@ != "tuple"@,
        "object"@ != "tuple"@,
{
    reveal_strlit("string");
    reveal_strlit("number");
    reveal_strlit("bool");
    reveal_strlit("dynamic");
    reveal_strlit("list");
    reveal_strlit("set");
    reveal_strlit("map");
    reveal_strlit("object");
    reveal_strlit("tuple");
    assert("string"@[0] != "number"@[0]);
    assert("set"@[0] != "map"@[0]);
    assert("bool"@.len() == 4 && "dynamic"@.len() == 7);
    assert("list"@.len() == 4 && "object"@.len() == 6 && "tuple"@.len() == 5);
}

/// A type whose attributes are in name order is read back from its JSON
/// form.
pub proof fn law_type_json_round_trip(t: TypeV)
    requires
        type_wf(t),
    ensures
        type_of_json(type_json(t)) == Ok::<TypeV, CtyErrorV>(t),
    decreases t,
{
    lemma_tags_differ();
    match t {
        TypeV::List(e) => {
            law_type_json_round_trip(*e);
        },
        TypeV::SetOf(e) => {
            law_type_json_round_trip(*e);
        },
        TypeV::MapOf(e) => {
            law_type_json_round_trip(*e);
        },
        TypeV::Object(m) => {
            let o = type_json(t)->Array_0[1]->Object_0;
            assert forall|i: int| 0 <= i < m.len() implies type_of_json((#[trigger] o[i]).1) == Ok::<
                TypeV,
                CtyErrorV,
            >(m[i].1) by {
                law_type_json_round_trip(m[i].1);
            }
            lemma_attrs_round_trip(m, o, m.len() as int);
            assert(o.subrange(0, m.len() as int) =~= o);
            assert(m.subrange(0, m.len() as int) =~= m);
        },
        TypeV::Tuple(xs) => {
            let o = type_json(t)->Array_0[1]->Array_0;
            assert forall|i: int| 0 <= i < xs.len() implies type_of_json(#[trigger] o[i]) == Ok::<
                TypeV,
                CtyErrorV,
            >(xs[i]) by {
                law_type_json_round_trip(xs[i]);
            }
            lemma_types_round_trip(xs, o, xs.len() as int);
            assert(o.subrange(0, xs.len() as int) =~= o);
            assert(xs.subrange(0, xs.len() as int) =~= xs);
        },
        _ => {},
    }
}

proof fn lemma_attrs_round_trip(m: Seq<(Seq<char>, TypeV)>, o: Seq<(Seq<char>, JsonV)>, n: int)
    requires
        0 <= n <= m.len(),
        ordmap::sorted(m),
        o.len() == m.len(),
        forall|i: int|
            0 <= i < m.len() ==> (#[trigger] o[i]).0 == m[i].0 && type_of_json(o[i].1) == Ok::<
                TypeV,
                CtyErrorV,
            >(m[i].1),
    ensures
        attrs_of_json(o.subrange(0, n)) == Ok::<Seq<(Seq<char>, TypeV)>, CtyErrorV>(m.subrange(0, n)),
    decreases n,
{
    if n > 0 {
        lemma_attrs_round_trip(m, o, n - 1);
        let a = o.subrange(0, n);
        assert(a.subrange(0, n - 1) =~= o.subrange(0, n - 1));
        assert(a[n - 1] == o[n - 1]);
        let b = m.subrange(0, n);
        let p = m.subrange(0, n - 1);
        assert(p.push(m[n - 1]) =~= b);
        assert forall|i: int, j: int| #![trigger b[i], b[j]] 0 <= i < j < b.len() implies text::lex_lt(
            b[i].0,
            b[j].0,
        ) by {
            assert(b[i] == m[i] && b[j] == m[j]);
        }
        ordmap::lemma_put_last(p, m[n - 1].0, m[n - 1].1);
    } else {
        assert(m.subrange(0, 0) =~= Seq::empty());
    }
}

proof fn lemma_types_round_trip(xs: Seq<TypeV>, o: Seq<JsonV>, n: int)
    requires
        0 <= n <= xs.len(),
        o.len() == xs.len(),
        forall|i: int|
            0 <= i < xs.len() ==> type_of_json(#[trigger] o[i]) == Ok::<TypeV, CtyErrorV>(xs[i]),
    ensures
        types_of_json(o.subrange(0, n)) == Ok::<Seq<TypeV>, CtyErrorV>(xs.subrange(0, n)),
    decreases n,
{
    if n > 0 {
        lemma_types_round_trip(xs, o, n - 1);
        let a = o.subrange(0, n);
        assert(a.subrange(0, n - 1) =~= o.subrange(0, n - 1));
        assert(a[n - 1] == o[n - 1]);
        assert(xs.subrange(0, n - 1).push(xs[n - 1]) =~= xs.subrange(0, n));
    } else {
        assert(xs.subrange(0, 0) =~= Seq::empty());
    }
}

proof fn lemma_types_gather(xs: Seq<JsonV>, n: int)
    requires
        0 <= n <= xs.len(),
    ensures
        gather::gathered(types_of_json(xs.subrange(0, n)), n, |i: int| type_of_json(xs[i])),
    decreases n,
{
    if n > 0 {
        lemma_types_gather(xs, n - 1);
        let b = xs.subrange(0, n);
        let a = xs.subrange(0, n - 1);
        assert(b.subrange(0, n - 1) =~= a);
        gather::lemma_gathered_push(
            types_of_json(a),
            types_of_json(b),
            n - 1,
            |i: int| type_of_json(xs[i]),
        );
    }
}

/// A tuple type is read element by element, at its places; the first element
/// that is no type is the error of the whole.
pub proof fn law_tuple_types_by_place(xs: Seq<JsonV>)
    ensures
        match type_of_json(JsonV::Array(seq![JsonV::String("tuple"@), JsonV::Array(xs)])) {
            Ok(t) => t is Tuple && gather::gathered(
                Ok(t->Tuple_0),
                xs.len() as int,
                |i: int| type_of_json(xs[i]),
            ),
            Err(e) => gather::gathered(
                Err::<Seq<TypeV>, CtyErrorV>(e),
                xs.len() as int,
                |i: int| type_of_json(xs[i]),
            ),
        },
{
    lemma_types_gather(xs, xs.len() as int);
    assert(xs.subrange(0, xs.len() as int) =~= xs);
    let items = seq![JsonV::String("tuple"@), JsonV::Array(xs)];
    assert(items[0] == JsonV::String("tuple"@) && items[1] == JsonV::Array(xs));
    reveal_strlit("tuple");
    reveal_strlit("list");
    reveal_strlit("set");
    reveal_strlit("map");
    reveal_strlit("object");
    assert("tuple"@.len() == 5 && "list"@.len() == 4 && "set"@.len() == 3 && "map"@.len() == 3);
    assert("object"@.len() == 6);
}

/// No member among the first `n` that stands behind `i` has its name.
pub open spec fn last_named(m: Seq<(Seq<char>, JsonV)>, n: int, i: int) -> bool {
    0 <= i < n && forall|j: int| i < j < n ==> (#[trigger] m[j]).0 != m[i].0
}

/// The first `n` members read by name: of two with one name the later one
/// counts. The first that cannot be read is the error of the whole.
pub open spec fn read_by_name(
    m: Seq<(Seq<char>, JsonV)>,
    n: int,
    each: spec_fn(int) -> Result<TypeV, CtyErrorV>,
    r: Result<Seq<(Seq<char>, TypeV)>, CtyErrorV>,
) -> bool {
    match r {
        Ok(o) => {
            &&& ordmap::sorted(o)
            &&& forall|i: int| 0 <= i < n ==> (#[trigger] each(i)) is Ok
            &&& forall|i: int| #[trigger]
                last_named(m, n, i) ==> ordmap::lookup(o, m[i].0) == Some(each(i)->Ok_0)
            &&& forall|k: Seq<char>|
                (forall|i: int| 0 <= i < n ==> (#[trigger] m[i]).0 != k) ==> (
                #[trigger] ordmap::lookup(o, k)) is None
        },
        Err(e) => exists|i: int|
            0 <= i < n && #[trigger] each(i) == Err::<TypeV, CtyErrorV>(e) && forall|j: int|
                0 <= j < i ==> (#[trigger] each(j)) is Ok,
    }
}

proof fn lemma_read_push(
    m: Seq<(Seq<char>, JsonV)>,
    n: int,
    each: spec_fn(int) -> Result<TypeV, CtyErrorV>,
    prev: Result<Seq<(Seq<char>, TypeV)>, CtyErrorV>,
    r: Result<Seq<(Seq<char>, TypeV)>, CtyErrorV>,
)
    requires
        0 <= n < m.len(),
        read_by_name(m, n, each, prev),
        r == match prev {
            Ok(o) => match each(n) {
                Ok(t) => Ok(ordmap::put(o, m[n].0, t)),
                Err(e) => Err(e),
            },
            Err(e) => Err(e),
        },
    ensures
        read_by_name(m, n + 1, each, r),
{
    if let Ok(p) = prev {
        if let Ok(t) = each(n) {
            let o = ordmap::put(p, m[n].0, t);
            ordmap::lemma_put_sorted(p, m[n].0, t);
            assert forall|i: int| #[trigger] last_named(m, n + 1, i) implies ordmap::lookup(
                o,
                m[i].0,
            ) == Some(each(i)->Ok_0) by {
                ordmap::lemma_put_lookup(p, m[n].0, t, m[i].0);
                if i < n {
                    assert(m[n].0 != m[i].0);
                    assert(last_named(m, n, i));
                }
            }
            assert forall|k: Seq<char>|
                (forall|i: int| 0 <= i < n + 1 ==> (#[trigger] m[i]).0 != k) implies (
            #[trigger] ordmap::lookup(o, k)) is None by {
                ordmap::lemma_put_lookup(p, m[n].0, t, k);
                assert(m[n].0 != k);
                assert(ordmap::lookup(p, k) is None);
            }
        }
    }
}

proof fn lemma_attrs_read(m: Seq<(Seq<char>, JsonV)>, n: int)
    requires
        0 <= n <= m.len(),
    ensures
        read_by_name(m, n, |i: int| type_of_json(m[i].1), attrs_of_json(m.subrange(0, n))),
    decreases n,
{
    if n > 0 {
        lemma_attrs_read(m, n - 1);
        let b = m.subrange(0, n);
        let a = m.subrange(0, n - 1);
        assert(b.subrange(0, n - 1) =~= a);
        assert(b[n - 1] == m[n - 1]);
        lemma_read_push(
            m,
            n - 1,
            |i: int| type_of_json(m[i].1),
            attrs_of_json(a),
            attrs_of_json(b),
        );
    } else {
        assert(m.subrange(0, 0) =~= Seq::<(Seq<char>, JsonV)>::empty());
    }
}

/// An object type is read member by member: each attribute has the type that
/// its last member of that name stands for, and there are no others. The first
/// member that is no type is the error of the whole.
pub proof fn law_object_types_by_name(m: Seq<(Seq<char>, JsonV)>)
    ensures
        match type_of_json(JsonV::Array(seq![JsonV::String("object"@), JsonV::Object(m)])) {
            Ok(t) => t is Object && read_by_name(
                m,
                m.len() as int,
                |i: int| type_of_json(m[i].1),
                Ok(t->Object_0),
            ),
            Err(e) => read_by_name(m, m.len() as int, |i: int| type_of_json(m[i].1), Err(e)),
        },
{
    lemma_attrs_read(m, m.len() as int);
    assert(m.subrange(0, m.len() as int) =~= m);
    let items = seq![JsonV::String("object"@), JsonV::Object(m)];
    assert(items[0] == JsonV::String("object"@) && items[1] == JsonV::Object(m));
    reveal_strlit("list");
    reveal_strlit("set");
    reveal_strlit("map");
    reveal_strlit("object");
    assert("list"@.len() == 4 && "set"@.len() == 3 && "map"@.len() == 3 && "object"@.len() == 6);
}

/// Each type is told by its own word in JSON, and the type of its elements
/// stands behind it.
pub proof fn law_types_in_words(e: TypeV)
    ensures
        type_json(TypeV::String) == JsonV::String("string"@),
        type_json(TypeV::Number) == JsonV::String("number"@),
        type_json(TypeV::Bool) == JsonV::String("bool"@),
        type_json(TypeV::DynamicPseudoType) == JsonV::String("dynamic"@),
        type_json(TypeV::List(Box::new(e))) == JsonV::Array(
            seq![JsonV::String("list"@), type_json(e)],
        ),
        type_json(TypeV::SetOf(Box::new(e))) == JsonV::Array(
            seq![JsonV::String("set"@), type_json(e)],
        ),
        type_json(TypeV::MapOf(Box::new(e))) == JsonV::Array(
            seq![JsonV::String("map"@), type_json(e)],
        ),
{
}

/// Only a word or a list that begins with one is a type.
pub proof fn law_what_is_no_type(v: JsonV, s: Seq<char>)
    ensures
        type_of_json(v) is Ok ==> v is String || v is Array && v->Array_0.len() >= 2
            && v->Array_0[0] is String,
        type_of_json(JsonV::String(s)) is Ok <==> s == "string"@ || s == "number"@ || s == "bool"@ || s
            == "dynamic"@,
{
}

} // verus!
