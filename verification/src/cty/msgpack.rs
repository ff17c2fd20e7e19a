//! The type-driven msgpack codec:
//!
//! | cty | msgpack |
//! |---|---|
//! | null (any type)    | `nil` |
//! | unknown (any type) | ext type `0`, payload `[0]` |
//! | bool               | bool |
//! | number             | integer where integral, else float64 |
//! | string             | str |
//! | list / set / tuple | array |
//! | map / object       | map (string keys) |
//! | dynamic            | 2-array `[bin(type-json), bin(value-msgpack)]` |
//!
//! The type decides the shape, so a value comes back as it was when it is
//! decoded under the type that it was encoded under.
use vstd::prelude::*;
use vstd::string::*;
use crate::cty;
use crate::cty::types;
use crate::cty::types::{CtyType, TypeV};
use crate::cty::value;
use crate::cty::value::{CtyValue, ValueV};
use crate::cty::wire;
use crate::cty::wire::{Int, Msg, MsgV};
use crate::gather;
use crate::cty::{CtyError, CtyErrorV};
use crate::json;
use crate::json::Number;
use crate::ordmap;
use crate::ordmap::StrMap;
use crate::text;

verus! {

/// The extension code of an unknown value.
pub const UNKNOWN_EXT: i8 = 0;

// ── What encoding gives ────────────────────────────────────────────

/// The type that a value has by its own shape: a collection takes the type
/// of its first element.
pub open spec fn shape_of(v: ValueV) -> TypeV
    decreases v,
{
    match v {
        ValueV::Bool(_) => TypeV::Bool,
        ValueV::Number(_) => TypeV::Number,
        ValueV::String(_) => TypeV::String,
        ValueV::List(xs) => TypeV::List(
            Box::new(
                if xs.len() > 0 {
                    shape_of(xs[0])
                } else {
                    TypeV::DynamicPseudoType
                },
            ),
        ),
        ValueV::SetOf(xs) => TypeV::SetOf(
            Box::new(
                if xs.len() > 0 {
                    shape_of(xs[0])
                } else {
                    TypeV::DynamicPseudoType
                },
            ),
        ),
        ValueV::Tuple(xs) => TypeV::Tuple(
            Seq::new(
                xs.len(),
                |i: int|
                    if 0 <= i < xs.len() {
                        shape_of(xs[i])
                    } else {
                        TypeV::DynamicPseudoType
                    },
            ),
        ),
        ValueV::MapOf(m) => TypeV::MapOf(
            Box::new(
                if m.len() > 0 {
                    shape_of(m[0].1)
                } else {
                    TypeV::DynamicPseudoType
                },
            ),
        ),
        ValueV::Object(m) => TypeV::Object(
            Seq::new(
                m.len(),
                |i: int|
                    if 0 <= i < m.len() {
                        (m[i].0, shape_of(m[i].1))
                    } else {
                        (Seq::empty(), TypeV::DynamicPseudoType)
                    },
            ),
        ),
        ValueV::Null => TypeV::DynamicPseudoType,
        ValueV::Unknown => TypeV::DynamicPseudoType,
    }
}

pub open spec fn dynamic_rank(ty: TypeV) -> nat {
    if ty is DynamicPseudoType {
        1
    } else {
        0
    }
}

pub open spec fn mismatch_error(expected: Seq<char>, v: ValueV) -> CtyErrorV {
    CtyErrorV::Encode("value "@ + value::value_debug(v) + " does not match cty type "@ + expected)
}

/// A number as a message: an integer, or the bits of the double.
pub open spec fn number_msg(n: Number) -> MsgV {
    match n {
        Number::PosInt(u) => MsgV::Integer(Int::PosInt(u)),
        Number::NegInt(i) => MsgV::Integer(
            if i < 0 {
                Int::NegInt(i)
            } else {
                Int::PosInt(i as u64)
            },
        ),
        Number::Float(b) => MsgV::F64(b),
    }
}

/// The message that a value becomes under a type.
pub open spec fn msg_of_value(v: ValueV, ty: TypeV) -> Result<MsgV, CtyErrorV>
    decreases v, dynamic_rank(ty),
{
    if v is Null {
        Ok(MsgV::Nil)
    } else if v is Unknown {
        Ok(MsgV::Ext(UNKNOWN_EXT, seq![0u8]))
    } else {
        match ty {
            TypeV::String => match v {
                ValueV::String(s) => Ok(MsgV::String(s)),
                _ => Err(mismatch_error("string"@, v)),
            },
            TypeV::Bool => match v {
                ValueV::Bool(b) => Ok(MsgV::Boolean(b)),
                _ => Err(mismatch_error("bool"@, v)),
            },
            TypeV::Number => match v {
                ValueV::Number(n) => Ok(number_msg(n)),
                _ => Err(mismatch_error("number"@, v)),
            },
            TypeV::List(e) => match v {
                ValueV::List(xs) => array_result(msgs_of_list(xs, *e)),
                ValueV::SetOf(xs) => array_result(msgs_of_list(xs, *e)),
                _ => Err(mismatch_error("list/set"@, v)),
            },
            TypeV::SetOf(e) => match v {
                ValueV::List(xs) => array_result(msgs_of_list(xs, *e)),
                ValueV::SetOf(xs) => array_result(msgs_of_list(xs, *e)),
                _ => Err(mismatch_error("list/set"@, v)),
            },
            TypeV::Tuple(ts) => match v {
                ValueV::Tuple(xs) => if xs.len() != ts.len() {
                    Err(
                        CtyErrorV::Encode(
                            "tuple arity mismatch: value has "@ + text::decimal(xs.len())
                                + ", type has "@ + text::decimal(ts.len()),
                        ),
                    )
                } else {
                    array_result(msgs_of_tuple(xs, ts))
                },
                _ => Err(mismatch_error("tuple"@, v)),
            },
            TypeV::MapOf(e) => match v {
                ValueV::MapOf(m) => pairs_result(pairs_of_map(m, *e)),
                _ => Err(mismatch_error("map"@, v)),
            },
            TypeV::Object(attrs) => match v {
                ValueV::Object(o) => pairs_result(pairs_of_object(o, attrs)),
                _ => Err(mismatch_error("object"@, v)),
            },
            TypeV::DynamicPseudoType => match msg_of_value(v, shape_of(v)) {
                Ok(m) => Ok(
                    MsgV::Array(
                        seq![
                            MsgV::Binary(json::json_bytes(types::type_json(shape_of(v)))),
                            MsgV::Binary(wire::msg_bytes(m)),
                        ],
                    ),
                ),
                Err(e) => Err(e),
            },
        }
    }
}

pub open spec fn array_result(r: Result<Seq<MsgV>, CtyErrorV>) -> Result<MsgV, CtyErrorV> {
    match r {
        Ok(xs) => Ok(MsgV::Array(xs)),
        Err(e) => Err(e),
    }
}

pub open spec fn pairs_result(r: Result<Seq<(MsgV, MsgV)>, CtyErrorV>) -> Result<MsgV, CtyErrorV> {
    match r {
        Ok(ps) => Ok(MsgV::Pairs(ps)),
        Err(e) => Err(e),
    }
}

/// Each element under `e`, up to the first error.
pub open spec fn msgs_of_list(xs: Seq<ValueV>, e: TypeV) -> Result<Seq<MsgV>, CtyErrorV>
    decreases xs, 0nat,
{
    if xs.len() == 0 {
        Ok(Seq::empty())
    } else {
        match msgs_of_list(xs.subrange(0, xs.len() - 1), e) {
            Ok(prev) => match msg_of_value(xs[xs.len() - 1], e) {
                Ok(m) => Ok(prev.push(m)),
                Err(err) => Err(err),
            },
            Err(err) => Err(err),
        }
    }
}

/// Each element under the type at its place, up to the first error.
pub open spec fn msgs_of_tuple(xs: Seq<ValueV>, ts: Seq<TypeV>) -> Result<Seq<MsgV>, CtyErrorV>
    decreases xs, 0nat,
{
    if xs.len() == 0 {
        Ok(Seq::empty())
    } else {
        match msgs_of_tuple(xs.subrange(0, xs.len() - 1), ts) {
            Ok(prev) => match msg_of_value(xs[xs.len() - 1], ts[xs.len() - 1]) {
                Ok(m) => Ok(prev.push(m)),
                Err(err) => Err(err),
            },
            Err(err) => Err(err),
        }
    }
}

/// Each member under `e`, up to the first error.
pub open spec fn pairs_of_map(m: Seq<(Seq<char>, ValueV)>, e: TypeV) -> Result<
    Seq<(MsgV, MsgV)>,
    CtyErrorV,
>
    decreases m, 0nat,
{
    if m.len() == 0 {
        Ok(Seq::empty())
    } else {
        match pairs_of_map(m.subrange(0, m.len() - 1), e) {
            Ok(prev) => match msg_of_value(m[m.len() - 1].1, e) {
                Ok(x) => Ok(prev.push((MsgV::String(m[m.len() - 1].0), x))),
                Err(err) => Err(err),
            },
            Err(err) => Err(err),
        }
    }
}

/// Where the member `key` stands, or past the end.
pub open spec fn find_member(m: Seq<(Seq<char>, ValueV)>, key: Seq<char>) -> int
    decreases m.len(),
{
    if m.len() == 0 {
        0
    } else if m[0].0 == key {
        0
    } else {
        1 + find_member(m.drop_first(), key)
    }
}

/// For each attribute of the type, in the type's order, the value of that
/// name under the attribute's type, nil where there is none; up to the
/// first error.
pub open spec fn pairs_of_object(
    o: Seq<(Seq<char>, ValueV)>,
    attrs: Seq<(Seq<char>, TypeV)>,
) -> Result<Seq<(MsgV, MsgV)>, CtyErrorV>
    decreases o, attrs.len(),
{
    if attrs.len() == 0 {
        Ok(Seq::empty())
    } else {
        match pairs_of_object(o, attrs.subrange(0, attrs.len() - 1)) {
            Ok(prev) => {
                let name = attrs[attrs.len() - 1].0;
                let at = find_member(o, name);
                if 0 <= at < o.len() {
                    match msg_of_value(o[at].1, attrs[attrs.len() - 1].1) {
                        Ok(x) => Ok(prev.push((MsgV::String(name), x))),
                        Err(err) => Err(err),
                    }
                } else {
                    Ok(prev.push((MsgV::String(name), MsgV::Nil)))
                }
            },
            Err(err) => Err(err),
        }
    }
}

// ── What decoding gives ────────────────────────────────────────────

pub open spec fn decode_error(expected: Seq<char>, m: MsgV) -> CtyErrorV {
    CtyErrorV::Decode("msgpack "@ + wire::msg_debug(m) + " does not decode as cty "@ + expected)
}

pub open spec fn float_value(bits: u64) -> Result<ValueV, CtyErrorV> {
    if wire::finite(bits) {
        Ok(ValueV::Number(Number::Float(bits)))
    } else {
        Err(CtyErrorV::Decode("non-finite float"@))
    }
}

/// The number that a message stands for.
pub open spec fn number_of_msg(m: MsgV) -> Result<ValueV, CtyErrorV> {
    match m {
        MsgV::Integer(Int::PosInt(u)) => Ok(ValueV::Number(Number::PosInt(u))),
        MsgV::Integer(Int::NegInt(i)) => Ok(ValueV::Number(json::int_number(i))),
        MsgV::F64(b) => float_value(b),
        MsgV::F32(b) => if wire::finite32(b) {
            Ok(ValueV::Number(Number::Float(wire::widened(b))))
        } else {
            Err(CtyErrorV::Decode("non-finite float"@))
        },
        _ => Err(decode_error("number"@, m)),
    }
}

/// The value that a message stands for under a type. `size` is the length of
/// the bytes that the message was read from; what a dynamic value wraps is
/// shorter.
pub open spec fn value_of_msg(size: nat, m: MsgV, ty: TypeV) -> Result<ValueV, CtyErrorV>
    decreases size, m,
{
    if m is Nil {
        Ok(ValueV::Null)
    } else if m is Ext && m->Ext_0 == UNKNOWN_EXT {
        Ok(ValueV::Unknown)
    } else {
        match ty {
            TypeV::String => match m {
                MsgV::String(s) => Ok(ValueV::String(s)),
                _ => Err(decode_error("string"@, m)),
            },
            TypeV::Bool => match m {
                MsgV::Boolean(b) => Ok(ValueV::Bool(b)),
                _ => Err(decode_error("bool"@, m)),
            },
            TypeV::Number => number_of_msg(m),
            TypeV::List(e) => match m {
                MsgV::Array(xs) => match list_of_msgs(size, xs, *e) {
                    Ok(vs) => Ok(ValueV::List(vs)),
                    Err(err) => Err(err),
                },
                _ => Err(decode_error("list/set"@, m)),
            },
            TypeV::SetOf(e) => match m {
                MsgV::Array(xs) => match list_of_msgs(size, xs, *e) {
                    Ok(vs) => Ok(ValueV::SetOf(vs)),
                    Err(err) => Err(err),
                },
                _ => Err(decode_error("list/set"@, m)),
            },
            TypeV::Tuple(ts) => match m {
                MsgV::Array(xs) => if xs.len() != ts.len() {
                    Err(
                        CtyErrorV::Decode(
                            "tuple arity mismatch: msgpack has "@ + text::decimal(xs.len())
                                + ", type has "@ + text::decimal(ts.len()),
                        ),
                    )
                } else {
                    match tuple_of_msgs(size, xs, ts) {
                        Ok(vs) => Ok(ValueV::Tuple(vs)),
                        Err(err) => Err(err),
                    }
                },
                _ => Err(decode_error("tuple"@, m)),
            },
            TypeV::MapOf(e) => match m {
                MsgV::Pairs(ps) => match map_of_pairs(size, ps, *e) {
                    Ok(o) => Ok(ValueV::MapOf(o)),
                    Err(err) => Err(err),
                },
                _ => Err(decode_error("map"@, m)),
            },
            TypeV::Object(attrs) => match m {
                MsgV::Pairs(ps) => match object_of_pairs(size, ps, attrs) {
                    Ok(o) => Ok(ValueV::Object(o)),
                    Err(err) => Err(err),
                },
                _ => Err(decode_error("object"@, m)),
            },
            TypeV::DynamicPseudoType => match m {
                MsgV::Array(xs) => if xs.len() != 2 {
                    Err(CtyErrorV::Decode("dynamic wrapper must be a 2-array"@))
                } else {
                    match wire::slice_of(xs[0]) {
                        None => Err(CtyErrorV::Decode("dynamic type not bin"@)),
                        Some(tb) => match json::json_parsed(tb) {
                            Err(e) => Err(CtyErrorV::Decode("dynamic type json: "@ + e)),
                            Ok(tj) => match types::type_of_json(tj) {
                                Err(e) => Err(e),
                                Ok(t) => match wire::slice_of(xs[1]) {
                                    None => Err(CtyErrorV::Decode("dynamic value not bin"@)),
                                    Some(vb) => if vb.len() < size {
                                        match wire::msg_read(vb) {
                                            Ok(inner) => value_of_msg(vb.len(), inner, t),
                                            Err(e) => Err(CtyErrorV::Decode(e)),
                                        }
                                    } else {
                                        Err(CtyErrorV::Decode(Seq::empty()))
                                    },
                                },
                            },
                        },
                    }
                },
                _ => Err(decode_error("dynamic"@, m)),
            },
        }
    }
}

/// Each message under `e`, up to the first error.
pub open spec fn list_of_msgs(size: nat, xs: Seq<MsgV>, e: TypeV) -> Result<Seq<ValueV>, CtyErrorV>
    decreases size, xs,
{
    if xs.len() == 0 {
        Ok(Seq::empty())
    } else {
        match list_of_msgs(size, xs.subrange(0, xs.len() - 1), e) {
            Ok(prev) => match value_of_msg(size, xs[xs.len() - 1], e) {
                Ok(v) => Ok(prev.push(v)),
                Err(err) => Err(err),
            },
            Err(err) => Err(err),
        }
    }
}

/// Each message under the type at its place, up to the first error.
pub open spec fn tuple_of_msgs(size: nat, xs: Seq<MsgV>, ts: Seq<TypeV>) -> Result<
    Seq<ValueV>,
    CtyErrorV,
>
    decreases size, xs,
{
    if xs.len() == 0 {
        Ok(Seq::empty())
    } else {
        match tuple_of_msgs(size, xs.subrange(0, xs.len() - 1), ts) {
            Ok(prev) => match value_of_msg(size, xs[xs.len() - 1], ts[xs.len() - 1]) {
                Ok(v) => Ok(prev.push(v)),
                Err(err) => Err(err),
            },
            Err(err) => Err(err),
        }
    }
}

/// Each pair under `e`, up to the first error; of two with one key the later
/// one stays.
pub open spec fn map_of_pairs(size: nat, ps: Seq<(MsgV, MsgV)>, e: TypeV) -> Result<
    Seq<(Seq<char>, ValueV)>,
    CtyErrorV,
>
    decreases size, ps,
{
    if ps.len() == 0 {
        Ok(Seq::empty())
    } else {
        match map_of_pairs(size, ps.subrange(0, ps.len() - 1), e) {
            Ok(prev) => match ps[ps.len() - 1].0 {
                MsgV::String(k) => match value_of_msg(size, ps[ps.len() - 1].1, e) {
                    Ok(v) => Ok(ordmap::put(prev, k, v)),
                    Err(err) => Err(err),
                },
                _ => Err(CtyErrorV::Decode("map key not a string"@)),
            },
            Err(err) => Err(err),
        }
    }
}

/// Each pair that the type names under the attribute's type, up to the first
/// error; of two with one key the later one stays. Pairs that the type does
/// not name are left out.
pub open spec fn object_of_pairs(
    size: nat,
    ps: Seq<(MsgV, MsgV)>,
    attrs: Seq<(Seq<char>, TypeV)>,
) -> Result<Seq<(Seq<char>, ValueV)>, CtyErrorV>
    decreases size, ps,
{
    if ps.len() == 0 {
        Ok(Seq::empty())
    } else {
        match object_of_pairs(size, ps.subrange(0, ps.len() - 1), attrs) {
            Ok(prev) => match ps[ps.len() - 1].0 {
                MsgV::String(k) => match ordmap::lookup(attrs, k) {
                    Some(t) => match value_of_msg(size, ps[ps.len() - 1].1, t) {
                        Ok(v) => Ok(ordmap::put(prev, k, v)),
                        Err(err) => Err(err),
                    },
                    None => Ok(prev),
                },
                _ => Err(CtyErrorV::Decode("object key not a string"@)),
            },
            Err(err) => Err(err),
        }
    }
}

/// The value that bytes stand for under a type.
pub open spec fn value_of_bytes(bytes: Seq<u8>, ty: TypeV) -> Result<ValueV, CtyErrorV> {
    match wire::msg_read(bytes) {
        Ok(m) => value_of_msg(bytes.len(), m, ty),
        Err(e) => Err(CtyErrorV::Decode(e)),
    }
}

// ── What comes back as it was ──────────────────────────────────────

/// A number in its normal form.
pub open spec fn number_normal(n: Number) -> bool {
    match n {
        Number::PosInt(_) => true,
        Number::NegInt(i) => i < 0,
        Number::Float(b) => wire::finite(b),
    }
}

/// The value has the shape of the type: null and unknown have every type, an
/// object has exactly the attributes of its type. Under the dynamic type the
/// value has the shape of its own type, and that type and the wrapped
/// message are within the readers' limits.
pub open spec fn conforms(v: ValueV, ty: TypeV) -> bool
    decreases v, dynamic_rank(ty),
{
    ||| v is Null
    ||| v is Unknown
    ||| match ty {
        TypeV::String => v is String,
        TypeV::Bool => v is Bool,
        TypeV::Number => v is Number && number_normal(v->Number_0),
        TypeV::List(e) => v is List && forall|i: int|
            #![trigger v->List_0[i]]
            0 <= i < v->List_0.len() ==> conforms(v->List_0[i], *e),
        TypeV::SetOf(e) => v is SetOf && forall|i: int|
            #![trigger v->SetOf_0[i]]
            0 <= i < v->SetOf_0.len() ==> conforms(v->SetOf_0[i], *e),
        TypeV::Tuple(ts) => v is Tuple && v->Tuple_0.len() == ts.len() && forall|i: int|
            #![trigger v->Tuple_0[i]]
            0 <= i < v->Tuple_0.len() ==> conforms(v->Tuple_0[i], ts[i]),
        TypeV::MapOf(e) => v is MapOf && ordmap::sorted(v->MapOf_0) && forall|i: int|
            #![trigger v->MapOf_0[i]]
            0 <= i < v->MapOf_0.len() ==> conforms(v->MapOf_0[i].1, *e),
        TypeV::Object(attrs) => v is Object && ordmap::sorted(attrs) && v->Object_0.len() == attrs.len()
            && forall|i: int|
            #![trigger v->Object_0[i]]
            0 <= i < v->Object_0.len() ==> v->Object_0[i].0 == attrs[i].0 && conforms(
                v->Object_0[i].1,
                attrs[i].1,
            ),
        TypeV::DynamicPseudoType => conforms(v, shape_of(v)) && types::type_wf(shape_of(v))
            && json::rereadable(types::type_json(shape_of(v)), 127) && (match msg_of_value(
            v,
            shape_of(v),
        ) {
            Ok(m) => wire::fits(m, 1024),
            Err(_) => false,
        }),
    }
}

/// However long the bytes around it, the message stands for the value.
pub open spec fn decodes_to(m: MsgV, ty: TypeV, v: ValueV) -> bool {
    forall|size: nat|
        #![trigger wire::slices_below(m, size)]
        wire::slices_below(m, size) ==> value_of_msg(size, m, ty) == Ok::<ValueV, CtyErrorV>(v)
}

proof fn lemma_list_decodes(ms: Seq<MsgV>, e: TypeV, vs: Seq<ValueV>)
    requires
        ms.len() == vs.len(),
        forall|i: int| #![trigger ms[i]] 0 <= i < ms.len() ==> decodes_to(ms[i], e, vs[i]),
    ensures
        decodes_to(MsgV::Array(ms), TypeV::List(Box::new(e)), ValueV::List(vs)),
        decodes_to(MsgV::Array(ms), TypeV::SetOf(Box::new(e)), ValueV::SetOf(vs)),
{
    let m = MsgV::Array(ms);
    assert(m->Array_0 == ms);
    assert forall|size: nat| #![trigger wire::slices_below(m, size)] wire::slices_below(
        m,
        size,
    ) implies list_of_msgs(size, ms, e) == Ok::<Seq<ValueV>, CtyErrorV>(vs) by {
        lemma_list_decodes_prefix(size, ms, e, vs, ms.len() as int);
        assert(ms.subrange(0, ms.len() as int) =~= ms);
        assert(vs.subrange(0, ms.len() as int) =~= vs);
    }
}

proof fn lemma_list_decodes_prefix(size: nat, ms: Seq<MsgV>, e: TypeV, vs: Seq<ValueV>, n: int)
    requires
        ms.len() == vs.len(),
        0 <= n <= ms.len(),
        wire::slices_below(MsgV::Array(ms), size),
        forall|i: int| #![trigger ms[i]] 0 <= i < ms.len() ==> decodes_to(ms[i], e, vs[i]),
    ensures
        list_of_msgs(size, ms.subrange(0, n), e) == Ok::<Seq<ValueV>, CtyErrorV>(vs.subrange(0, n)),
    decreases n,
{
    if n > 0 {
        lemma_list_decodes_prefix(size, ms, e, vs, n - 1);
        let a = ms.subrange(0, n);
        assert(a.subrange(0, n - 1) =~= ms.subrange(0, n - 1));
        assert(a[n - 1] == ms[n - 1]);
        assert(MsgV::Array(ms)->Array_0[n - 1] == ms[n - 1]);
        assert(wire::slices_below(ms[n - 1], size));
        assert(decodes_to(ms[n - 1], e, vs[n - 1]));
        assert(vs.subrange(0, n - 1).push(vs[n - 1]) =~= vs.subrange(0, n));
    } else {
        assert(vs.subrange(0, 0) =~= Seq::empty());
    }
}

proof fn lemma_tuple_decodes(ms: Seq<MsgV>, ts: Seq<TypeV>, vs: Seq<ValueV>)
    requires
        ms.len() == vs.len(),
        ms.len() == ts.len(),
        forall|i: int| #![trigger ms[i]] 0 <= i < ms.len() ==> decodes_to(ms[i], ts[i], vs[i]),
    ensures
        decodes_to(MsgV::Array(ms), TypeV::Tuple(ts), ValueV::Tuple(vs)),
{
    let m = MsgV::Array(ms);
    assert(m->Array_0 == ms);
    assert forall|size: nat| #![trigger wire::slices_below(m, size)] wire::slices_below(
        m,
        size,
    ) implies tuple_of_msgs(size, ms, ts) == Ok::<Seq<ValueV>, CtyErrorV>(vs) by {
        lemma_tuple_decodes_prefix(size, ms, ts, vs, ms.len() as int);
        assert(ms.subrange(0, ms.len() as int) =~= ms);
        assert(vs.subrange(0, ms.len() as int) =~= vs);
    }
}

proof fn lemma_tuple_decodes_prefix(
    size: nat,
    ms: Seq<MsgV>,
    ts: Seq<TypeV>,
    vs: Seq<ValueV>,
    n: int,
)
    requires
        ms.len() == vs.len(),
        ms.len() == ts.len(),
        0 <= n <= ms.len(),
        wire::slices_below(MsgV::Array(ms), size),
        forall|i: int| #![trigger ms[i]] 0 <= i < ms.len() ==> decodes_to(ms[i], ts[i], vs[i]),
    ensures
        tuple_of_msgs(size, ms.subrange(0, n), ts) == Ok::<Seq<ValueV>, CtyErrorV>(
            vs.subrange(0, n),
        ),
    decreases n,
{
    if n > 0 {
        lemma_tuple_decodes_prefix(size, ms, ts, vs, n - 1);
        let a = ms.subrange(0, n);
        assert(a.subrange(0, n - 1) =~= ms.subrange(0, n - 1));
        assert(a[n - 1] == ms[n - 1]);
        assert(MsgV::Array(ms)->Array_0[n - 1] == ms[n - 1]);
        assert(wire::slices_below(ms[n - 1], size));
        assert(decodes_to(ms[n - 1], ts[n - 1], vs[n - 1]));
        assert(vs.subrange(0, n - 1).push(vs[n - 1]) =~= vs.subrange(0, n));
    } else {
        assert(vs.subrange(0, 0) =~= Seq::empty());
    }
}

/// The pairs carry the names of the members, and each stands for its value.
spec fn pairs_decode(ps: Seq<(MsgV, MsgV)>, ts: Seq<TypeV>, vs: Seq<(Seq<char>, ValueV)>) -> bool {
    &&& ps.len() == vs.len()
    &&& ts.len() == vs.len()
    &&& forall|i: int|
        #![trigger ps[i]]
        0 <= i < ps.len() ==> ps[i].0 == MsgV::String(vs[i].0) && decodes_to(ps[i].1, ts[i], vs[i].1)
}

proof fn lemma_map_decodes(ps: Seq<(MsgV, MsgV)>, e: TypeV, vs: Seq<(Seq<char>, ValueV)>)
    requires
        pairs_decode(ps, Seq::new(vs.len(), |i: int| e), vs),
        ordmap::sorted(vs),
    ensures
        decodes_to(MsgV::Pairs(ps), TypeV::MapOf(Box::new(e)), ValueV::MapOf(vs)),
{
    let m = MsgV::Pairs(ps);
    assert(m->Pairs_0 == ps);
    assert forall|size: nat| #![trigger wire::slices_below(m, size)] wire::slices_below(
        m,
        size,
    ) implies map_of_pairs(size, ps, e) == Ok::<Seq<(Seq<char>, ValueV)>, CtyErrorV>(vs) by {
        lemma_map_decodes_prefix(size, ps, e, vs, ps.len() as int);
        assert(ps.subrange(0, ps.len() as int) =~= ps);
        assert(vs.subrange(0, ps.len() as int) =~= vs);
    }
}

/// A prefix of a sorted sequence, and one entry more.
proof fn lemma_prefix_put(vs: Seq<(Seq<char>, ValueV)>, n: int)
    requires
        ordmap::sorted(vs),
        0 < n <= vs.len(),
    ensures
        ordmap::put(vs.subrange(0, n - 1), vs[n - 1].0, vs[n - 1].1) == vs.subrange(0, n),
{
    let b = vs.subrange(0, n);
    let p = vs.subrange(0, n - 1);
    assert(p.push(vs[n - 1]) =~= b);
    assert forall|i: int, j: int| #![trigger b[i], b[j]] 0 <= i < j < b.len() implies text::lex_lt(
        b[i].0,
        b[j].0,
    ) by {
        assert(b[i] == vs[i] && b[j] == vs[j]);
    }
    ordmap::lemma_put_last(p, vs[n - 1].0, vs[n - 1].1);
}

proof fn lemma_map_decodes_prefix(
    size: nat,
    ps: Seq<(MsgV, MsgV)>,
    e: TypeV,
    vs: Seq<(Seq<char>, ValueV)>,
    n: int,
)
    requires
        pairs_decode(ps, Seq::new(vs.len(), |i: int| e), vs),
        ordmap::sorted(vs),
        0 <= n <= ps.len(),
        wire::slices_below(MsgV::Pairs(ps), size),
    ensures
        map_of_pairs(size, ps.subrange(0, n), e) == Ok::<Seq<(Seq<char>, ValueV)>, CtyErrorV>(
            vs.subrange(0, n),
        ),
    decreases n,
{
    if n > 0 {
        lemma_map_decodes_prefix(size, ps, e, vs, n - 1);
        let a = ps.subrange(0, n);
        assert(a.subrange(0, n - 1) =~= ps.subrange(0, n - 1));
        assert(a[n - 1] == ps[n - 1]);
        assert(MsgV::Pairs(ps)->Pairs_0[n - 1] == ps[n - 1]);
        assert(wire::slices_below(ps[n - 1].1, size));
        assert(decodes_to(ps[n - 1].1, e, vs[n - 1].1));
        lemma_prefix_put(vs, n);
    } else {
        assert(vs.subrange(0, 0) =~= Seq::empty());
    }
}

proof fn lemma_object_decodes(
    ps: Seq<(MsgV, MsgV)>,
    attrs: Seq<(Seq<char>, TypeV)>,
    vs: Seq<(Seq<char>, ValueV)>,
)
    requires
        attrs.len() == vs.len(),
        pairs_decode(ps, Seq::new(attrs.len(), |i: int| attrs[i].1), vs),
        ordmap::sorted(attrs),
        forall|i: int| #![trigger vs[i]] 0 <= i < vs.len() ==> vs[i].0 == attrs[i].0,
    ensures
        decodes_to(MsgV::Pairs(ps), TypeV::Object(attrs), ValueV::Object(vs)),
{
    let m = MsgV::Pairs(ps);
    assert(m->Pairs_0 == ps);
    assert forall|i: int, j: int| #![trigger vs[i], vs[j]] 0 <= i < j < vs.len() implies text::lex_lt(
        vs[i].0,
        vs[j].0,
    ) by {
        assert(text::lex_lt(attrs[i].0, attrs[j].0));
    }
    assert forall|size: nat| #![trigger wire::slices_below(m, size)] wire::slices_below(
        m,
        size,
    ) implies object_of_pairs(size, ps, attrs) == Ok::<Seq<(Seq<char>, ValueV)>, CtyErrorV>(vs) by {
        lemma_object_decodes_prefix(size, ps, attrs, vs, ps.len() as int);
        assert(ps.subrange(0, ps.len() as int) =~= ps);
        assert(vs.subrange(0, ps.len() as int) =~= vs);
    }
}

proof fn lemma_object_decodes_prefix(
    size: nat,
    ps: Seq<(MsgV, MsgV)>,
    attrs: Seq<(Seq<char>, TypeV)>,
    vs: Seq<(Seq<char>, ValueV)>,
    n: int,
)
    requires
        attrs.len() == vs.len(),
        pairs_decode(ps, Seq::new(attrs.len(), |i: int| attrs[i].1), vs),
        ordmap::sorted(attrs),
        ordmap::sorted(vs),
        forall|i: int| #![trigger vs[i]] 0 <= i < vs.len() ==> vs[i].0 == attrs[i].0,
        0 <= n <= ps.len(),
        wire::slices_below(MsgV::Pairs(ps), size),
    ensures
        object_of_pairs(size, ps.subrange(0, n), attrs) == Ok::<
            Seq<(Seq<char>, ValueV)>,
            CtyErrorV,
        >(vs.subrange(0, n)),
    decreases n,
{
    if n > 0 {
        lemma_object_decodes_prefix(size, ps, attrs, vs, n - 1);
        let a = ps.subrange(0, n);
        assert(a.subrange(0, n - 1) =~= ps.subrange(0, n - 1));
        assert(a[n - 1] == ps[n - 1]);
        assert(MsgV::Pairs(ps)->Pairs_0[n - 1] == ps[n - 1]);
        assert(wire::slices_below(ps[n - 1].1, size));
        assert(decodes_to(ps[n - 1].1, attrs[n - 1].1, vs[n - 1].1));
        assert(vs[n - 1].0 == attrs[n - 1].0);
        ordmap::lemma_lookup_sorted(attrs, n - 1);
        lemma_prefix_put(vs, n);
    } else {
        assert(vs.subrange(0, 0) =~= Seq::empty());
    }
}

// ── Encoding ───────────────────────────────────────────────────────

fn mismatch(expected: &str, value: &CtyValue) -> (r: CtyError)
    ensures
        r@ == mismatch_error(expected@, value@),
{
    let t = value.debug();
    CtyError::Encode(text::join4("value ", t.as_str(), " does not match cty type ", expected))
}

/// The type that a value has by its own shape.
#[verifier::loop_isolation(false)]
fn infer_type(value: &CtyValue) -> (r: CtyType)
    ensures
        r@ == shape_of(value@),
    decreases value,
{
    match value {
        CtyValue::Bool(_) => CtyType::Bool,
        CtyValue::Number(_) => CtyType::Number,
        CtyValue::String(_) => CtyType::String,
        CtyValue::List(xs) => {
            proof {
                value::lemma_values_view(*xs);
            }
            if xs.len() > 0 {
                proof {
                    assert(decreases_to!(*xs => xs@[0]));
                    assert(value@->List_0[0] == xs@[0]@);
                }
                CtyType::list(infer_type(&xs[0]))
            } else {
                CtyType::list(CtyType::DynamicPseudoType)
            }
        },
        CtyValue::SetOf(xs) => {
            proof {
                value::lemma_values_view(*xs);
            }
            if xs.len() > 0 {
                proof {
                    assert(decreases_to!(*xs => xs@[0]));
                    assert(value@->SetOf_0[0] == xs@[0]@);
                }
                CtyType::set(infer_type(&xs[0]))
            } else {
                CtyType::set(CtyType::DynamicPseudoType)
            }
        },
        CtyValue::Tuple(xs) => {
            proof {
                value::lemma_values_view(*xs);
            }
            let mut out: Vec<CtyType> = Vec::new();
            let mut i: usize = 0;
            while i < xs.len()
                invariant
                    i <= xs@.len(),
                    out@.len() == i,
                    forall|j: int| 0 <= j < i ==> (#[trigger] out@[j])@ == shape_of(xs@[j]@),
                decreases xs.len() - i,
            {
                proof {
                    assert(decreases_to!(*xs => xs@[i as int]));
                }
                let t = infer_type(&xs[i]);
                out.push(t);
                i += 1;
            }
            proof {
                types::lemma_tuple_type_view(out);
                assert(types::types_view(out@) =~= shape_of(value@)->Tuple_0);
            }
            CtyType::Tuple(out)
        },
        CtyValue::MapOf(m) => {
            proof {
                value::lemma_members_view(*m);
            }
            if m.entries.len() > 0 {
                proof {
                    assert(decreases_to!(m.entries => m.entries@[0]));
                    assert(value@->MapOf_0[0].1 == m.entries@[0].1@);
                }
                CtyType::map(infer_type(&m.entries[0].1))
            } else {
                CtyType::map(CtyType::DynamicPseudoType)
            }
        },
        CtyValue::Object(m) => {
            proof {
                value::lemma_members_view(*m);
            }
            let mut out: Vec<(String, CtyType)> = Vec::new();
            let mut i: usize = 0;
            while i < m.entries.len()
                invariant
                    i <= m.entries@.len(),
                    out@.len() == i,
                    forall|j: int|
                        0 <= j < i ==> (#[trigger] out@[j]).0@ == m.entries@[j].0@ && out@[j].1@
                            == shape_of(m.entries@[j].1@),
                decreases m.entries.len() - i,
            {
                proof {
                    assert(decreases_to!(m.entries => m.entries@[i as int]));
                }
                let t = infer_type(&m.entries[i].1);
                out.push((m.entries[i].0.clone(), t));
                i += 1;
            }
            let o = StrMap { entries: out };
            proof {
                types::lemma_object_type_view(o);
                assert(types::attrs_view(o@) =~= shape_of(value@)->Object_0);
            }
            CtyType::Object(o)
        },
        CtyValue::Null => CtyType::DynamicPseudoType,
        CtyValue::Unknown => CtyType::DynamicPseudoType,
    }
}

fn number_to_rmpv(n: Number) -> (r: Msg)
    ensures
        r@ == number_msg(n),
{
    match n {
        Number::PosInt(u) => Msg::Integer(Int::PosInt(u)),
        Number::NegInt(i) => if i < 0 {
            Msg::Integer(Int::NegInt(i))
        } else {
            Msg::Integer(Int::PosInt(i as u64))
        },
        Number::Float(b) => Msg::F64(b),
    }
}

/// The message that stands for a value under a type.
pub fn to_rmpv(value: &CtyValue, ty: &CtyType) -> (r: Result<Msg, CtyError>)
    ensures
        cty::outcome(r) == msg_of_value(value@, ty@),
        conforms(value@, ty@) ==> (match r {
            Ok(m) => decodes_to(m@, ty@, value@),
            Err(_) => false,
        }),
    decreases value, dynamic_rank(ty@), 0int,
{
    if value.is_null() {
        return Ok(Msg::Nil);
    }
    if value.is_unknown() {
        let payload: Vec<u8> = vec![0u8];
        proof {
            assert(payload@ =~= seq![0u8]);
        }
        return Ok(Msg::Ext(UNKNOWN_EXT, payload));
    }
    match ty {
        CtyType::String => match value {
            CtyValue::String(s) => Ok(Msg::String(s.clone())),
            _ => Err(mismatch("string", value)),
        },
        CtyType::Bool => match value {
            CtyValue::Bool(b) => Ok(Msg::Boolean(*b)),
            _ => Err(mismatch("bool", value)),
        },
        CtyType::Number => match value {
            CtyValue::Number(n) => Ok(number_to_rmpv(*n)),
            _ => Err(mismatch("number", value)),
        },
        CtyType::List(e) => match value {
            CtyValue::List(xs) => {
                proof {
                    value::lemma_values_view(*xs);
                    assert(value@->List_0 == value::values_view(xs@));
                }
                list_to_rmpv(xs, e)
            },
            CtyValue::SetOf(xs) => {
                proof {
                    value::lemma_values_view(*xs);
                }
                list_to_rmpv(xs, e)
            },
            _ => Err(mismatch("list/set", value)),
        },
        CtyType::SetOf(e) => match value {
            CtyValue::List(xs) => {
                proof {
                    value::lemma_values_view(*xs);
                }
                list_to_rmpv(xs, e)
            },
            CtyValue::SetOf(xs) => {
                proof {
                    value::lemma_values_view(*xs);
                    assert(value@->SetOf_0 == value::values_view(xs@));
                }
                list_to_rmpv(xs, e)
            },
            _ => Err(mismatch("list/set", value)),
        },
        CtyType::Tuple(types) => match value {
            CtyValue::Tuple(xs) => {
                proof {
                    value::lemma_values_view(*xs);
                    types::lemma_tuple_type_view(*types);
                    assert(value@->Tuple_0 == value::values_view(xs@));
                    assert(ty@->Tuple_0 == types::types_view(types@));
                }
                if xs.len() != types.len() {
                    let a = text::decimal_text(xs.len());
                    let b = text::decimal_text(types.len());
                    let msg = text::join4(
                        "tuple arity mismatch: value has ",
                        a.as_str(),
                        ", type has ",
                        b.as_str(),
                    );
                    return Err(CtyError::Encode(msg));
                }
                tuple_to_rmpv(xs, types)
            },
            _ => Err(mismatch("tuple", value)),
        },
        CtyType::MapOf(e) => match value {
            CtyValue::MapOf(m) => {
                proof {
                    value::lemma_members_view(*m);
                    assert(value@->MapOf_0 == value::members_view(m@));
                }
                map_to_rmpv(m, e)
            },
            _ => Err(mismatch("map", value)),
        },
        CtyType::Object(attrs) => match value {
            CtyValue::Object(o) => {
                proof {
                    value::lemma_members_view(*o);
                    types::lemma_object_type_view(*attrs);
                    assert(value@->Object_0 == value::members_view(o@));
                    assert(ty@->Object_0 == types::attrs_view(attrs@));
                }
                object_to_rmpv(o, attrs)
            },
            _ => Err(mismatch("object", value)),
        },
        CtyType::DynamicPseudoType => {
            let concrete = infer_type(value);
            let tj = concrete.to_json();
            let type_bytes = json::to_bytes(&tj);
            match marshal(value, &concrete) {
                Ok(val_bytes) => {
                    let ghost vb = val_bytes@;
                    let ghost tb = type_bytes@;
                    let xs = vec![Msg::Binary(type_bytes), Msg::Binary(val_bytes)];
                    proof {
                        wire::lemma_array_view(xs);
                        let ms = seq![MsgV::Binary(tb), MsgV::Binary(vb)];
                        assert(wire::msgs_view(xs@) =~= ms);
                        if conforms(value@, ty@) {
                            types::law_type_json_round_trip(shape_of(value@));
                            lemma_dynamic_decodes(tb, vb, shape_of(value@), value@);
                        }
                    }
                    Ok(Msg::Array(xs))
                },
                Err(e) => Err(e),
            }
        },
    }
}

/// A wrapped value comes back where its type and its bytes do.
proof fn lemma_dynamic_decodes(tb: Seq<u8>, vb: Seq<u8>, t: TypeV, v: ValueV)
    requires
        json::reads_as(tb, types::type_json(t)),
        types::type_of_json(types::type_json(t)) == Ok::<TypeV, CtyErrorV>(t),
        value_of_bytes(vb, t) == Ok::<ValueV, CtyErrorV>(v),
    ensures
        decodes_to(
            MsgV::Array(seq![MsgV::Binary(tb), MsgV::Binary(vb)]),
            TypeV::DynamicPseudoType,
            v,
        ),
{
    let ms = seq![MsgV::Binary(tb), MsgV::Binary(vb)];
    let m = MsgV::Array(ms);
    assert(m->Array_0 == ms);
    assert forall|size: nat| #![trigger wire::slices_below(m, size)] wire::slices_below(
        m,
        size,
    ) implies value_of_msg(size, m, TypeV::DynamicPseudoType) == Ok::<ValueV, CtyErrorV>(v) by {
        assert(m->Array_0[1] == ms[1]);
        assert(wire::slices_below(ms[1], size));
        assert(wire::slice_of(ms[0]) == Some(tb));
        assert(wire::slice_of(ms[1]) == Some(vb));
    }
}

#[verifier::loop_isolation(false)]
fn list_to_rmpv(xs: &Vec<CtyValue>, elem: &CtyType) -> (r: Result<Msg, CtyError>)
    ensures
        cty::outcome(r) == array_result(msgs_of_list(value::values_view(xs@), elem@)),
        (forall|i: int|
            #![trigger value::values_view(xs@)[i]]
            0 <= i < xs@.len() ==> conforms(value::values_view(xs@)[i], elem@)) ==> (match r {
            Ok(m) => decodes_to(
                m@,
                TypeV::List(Box::new(elem@)),
                ValueV::List(value::values_view(xs@)),
            ) && decodes_to(
                m@,
                TypeV::SetOf(Box::new(elem@)),
                ValueV::SetOf(value::values_view(xs@)),
            ),
            Err(_) => false,
        }),
    decreases xs, 0nat, 0int,
{
    let mut out: Vec<Msg> = Vec::new();
    let mut i: usize = 0;
    let ghost all = value::values_view(xs@);
    let ghost fine = forall|i: int|
        #![trigger value::values_view(xs@)[i]]
        0 <= i < xs@.len() ==> conforms(value::values_view(xs@)[i], elem@);
    proof {
        assert(all.subrange(0, 0) =~= Seq::empty());
        assert(wire::msgs_view(out@) =~= Seq::empty());
    }
    while i < xs.len()
        invariant
            i <= xs@.len(),
            out@.len() == i,
            msgs_of_list(all.subrange(0, i as int), elem@) == Ok::<Seq<MsgV>, CtyErrorV>(
                wire::msgs_view(out@),
            ),
            fine ==> forall|j: int|
                #![trigger wire::msgs_view(out@)[j]]
                0 <= j < i ==> decodes_to(wire::msgs_view(out@)[j], elem@, all[j]),
        decreases xs.len() - i,
    {
        proof {
            assert(decreases_to!(*xs => xs@[i as int]));
            let b = all.subrange(0, i + 1);
            assert(b.subrange(0, i as int) =~= all.subrange(0, i as int));
            assert(b[i as int] == xs@[i as int]@);
            assert(all[i as int] == xs@[i as int]@);
        }
        match to_rmpv(&xs[i], elem) {
            Ok(m) => {
                proof {
                    assert(wire::msgs_view(out@.push(m)) =~= wire::msgs_view(out@).push(m@));
                }
                out.push(m);
            },
            Err(e) => {
                proof {
                    lemma_list_error(all, elem@, i + 1);
                }
                return Err(e);
            },
        }
        i += 1;
    }
    proof {
        assert(all.subrange(0, all.len() as int) =~= all);
        wire::lemma_array_view(out);
        if fine {
            lemma_list_decodes(wire::msgs_view(out@), elem@, all);
        }
    }
    Ok(Msg::Array(out))
}

#[verifier::loop_isolation(false)]
fn tuple_to_rmpv(xs: &Vec<CtyValue>, types: &Vec<CtyType>) -> (r: Result<Msg, CtyError>)
    requires
        xs@.len() == types@.len(),
    ensures
        cty::outcome(r) == array_result(
            msgs_of_tuple(value::values_view(xs@), types::types_view(types@)),
        ),
        (forall|i: int|
            #![trigger value::values_view(xs@)[i]]
            0 <= i < xs@.len() ==> conforms(
                value::values_view(xs@)[i],
                types::types_view(types@)[i],
            )) ==> (match r {
            Ok(m) => decodes_to(
                m@,
                TypeV::Tuple(types::types_view(types@)),
                ValueV::Tuple(value::values_view(xs@)),
            ),
            Err(_) => false,
        }),
    decreases xs, 0nat, 0int,
{
    let mut out: Vec<Msg> = Vec::new();
    let mut i: usize = 0;
    let ghost all = value::values_view(xs@);
    let ghost ts = types::types_view(types@);
    let ghost fine = forall|i: int|
        #![trigger value::values_view(xs@)[i]]
        0 <= i < xs@.len() ==> conforms(value::values_view(xs@)[i], types::types_view(types@)[i]);
    proof {
        assert(all.subrange(0, 0) =~= Seq::empty());
        assert(wire::msgs_view(out@) =~= Seq::empty());
    }
    while i < xs.len()
        invariant
            i <= xs@.len(),
            out@.len() == i,
            msgs_of_tuple(all.subrange(0, i as int), ts) == Ok::<Seq<MsgV>, CtyErrorV>(
                wire::msgs_view(out@),
            ),
            fine ==> forall|j: int|
                #![trigger wire::msgs_view(out@)[j]]
                0 <= j < i ==> decodes_to(wire::msgs_view(out@)[j], ts[j], all[j]),
        decreases xs.len() - i,
    {
        proof {
            assert(decreases_to!(*xs => xs@[i as int]));
            let b = all.subrange(0, i + 1);
            assert(b.subrange(0, i as int) =~= all.subrange(0, i as int));
            assert(b[i as int] == xs@[i as int]@);
            assert(all[i as int] == xs@[i as int]@);
            assert(ts[i as int] == types@[i as int]@);
        }
        match to_rmpv(&xs[i], &types[i]) {
            Ok(m) => {
                proof {
                    assert(wire::msgs_view(out@.push(m)) =~= wire::msgs_view(out@).push(m@));
                }
                out.push(m);
            },
            Err(e) => {
                proof {
                    lemma_tuple_error(all, ts, i + 1);
                }
                return Err(e);
            },
        }
        i += 1;
    }
    proof {
        assert(all.subrange(0, all.len() as int) =~= all);
        wire::lemma_array_view(out);
        if fine {
            lemma_tuple_decodes(wire::msgs_view(out@), ts, all);
        }
    }
    Ok(Msg::Array(out))
}

#[verifier::loop_isolation(false)]
fn map_to_rmpv(m: &StrMap<CtyValue>, elem: &CtyType) -> (r: Result<Msg, CtyError>)
    ensures
        cty::outcome(r) == pairs_result(pairs_of_map(value::members_view(m@), elem@)),
        ordmap::sorted(value::members_view(m@)) && (forall|i: int|
            #![trigger value::members_view(m@)[i]]
            0 <= i < m@.len() ==> conforms(value::members_view(m@)[i].1, elem@)) ==> (match r {
            Ok(x) => decodes_to(
                x@,
                TypeV::MapOf(Box::new(elem@)),
                ValueV::MapOf(value::members_view(m@)),
            ),
            Err(_) => false,
        }),
    decreases m, 0nat, 0int,
{
    let mut out: Vec<(Msg, Msg)> = Vec::new();
    let mut i: usize = 0;
    let ghost all = value::members_view(m@);
    let ghost ts = Seq::new(all.len(), |i: int| elem@);
    let ghost fine = forall|i: int|
        #![trigger value::members_view(m@)[i]]
        0 <= i < m@.len() ==> conforms(value::members_view(m@)[i].1, elem@);
    proof {
        assert(all.subrange(0, 0) =~= Seq::empty());
        assert(wire::pairs_view(out@) =~= Seq::empty());
    }
    while i < m.entries.len()
        invariant
            i <= m.entries@.len(),
            out@.len() == i,
            pairs_of_map(all.subrange(0, i as int), elem@) == Ok::<Seq<(MsgV, MsgV)>, CtyErrorV>(
                wire::pairs_view(out@),
            ),
            fine ==> forall|j: int|
                #![trigger wire::pairs_view(out@)[j]]
                0 <= j < i ==> wire::pairs_view(out@)[j].0 == MsgV::String(all[j].0) && decodes_to(
                    wire::pairs_view(out@)[j].1,
                    ts[j],
                    all[j].1,
                ),
        decreases m.entries.len() - i,
    {
        proof {
            assert(decreases_to!(m.entries => m.entries@[i as int]));
            let b = all.subrange(0, i + 1);
            assert(b.subrange(0, i as int) =~= all.subrange(0, i as int));
            assert(all[i as int] == (m.entries@[i as int].0@, m.entries@[i as int].1@));
            assert(b[i as int] == all[i as int]);
        }
        match to_rmpv(&m.entries[i].1, elem) {
            Ok(x) => {
                let k = Msg::String(m.entries[i].0.clone());
                proof {
                    assert(wire::pairs_view(out@.push((k, x))) =~= wire::pairs_view(out@).push(
                        (k@, x@),
                    ));
                }
                out.push((k, x));
            },
            Err(e) => {
                proof {
                    lemma_map_error(all, elem@, i + 1);
                }
                return Err(e);
            },
        }
        i += 1;
    }
    proof {
        assert(all.subrange(0, all.len() as int) =~= all);
        wire::lemma_pairs_view(out);
        if fine && ordmap::sorted(all) {
            lemma_map_decodes(wire::pairs_view(out@), elem@, all);
        }
    }
    Ok(Msg::Pairs(out))
}

#[verifier::loop_isolation(false)]
fn object_to_rmpv(o: &StrMap<CtyValue>, attrs: &StrMap<CtyType>) -> (r: Result<Msg, CtyError>)
    ensures
        cty::outcome(r) == pairs_result(
            pairs_of_object(value::members_view(o@), types::attrs_view(attrs@)),
        ),
        ordmap::sorted(types::attrs_view(attrs@)) && o@.len() == attrs@.len() && (forall|i: int|
            #![trigger value::members_view(o@)[i]]
            0 <= i < o@.len() ==> value::members_view(o@)[i].0 == types::attrs_view(attrs@)[i].0
                && conforms(
                value::members_view(o@)[i].1,
                types::attrs_view(attrs@)[i].1,
            )) ==> (match r {
            Ok(x) => decodes_to(
                x@,
                TypeV::Object(types::attrs_view(attrs@)),
                ValueV::Object(value::members_view(o@)),
            ),
            Err(_) => false,
        }),
    decreases o, attrs@.len(), 0int,
{
    let mut out: Vec<(Msg, Msg)> = Vec::new();
    let mut i: usize = 0;
    let ghost all = types::attrs_view(attrs@);
    let ghost ov = value::members_view(o@);
    let ghost ts = Seq::new(all.len(), |i: int| all[i].1);
    let ghost fine = ordmap::sorted(all) && ov.len() == all.len() && (forall|i: int|
        #![trigger value::members_view(o@)[i]]
        0 <= i < o@.len() ==> value::members_view(o@)[i].0 == types::attrs_view(attrs@)[i].0
            && conforms(value::members_view(o@)[i].1, types::attrs_view(attrs@)[i].1));
    proof {
        assert(all.subrange(0, 0) =~= Seq::empty());
        assert(wire::pairs_view(out@) =~= Seq::empty());
    }
    while i < attrs.entries.len()
        invariant
            i <= attrs.entries@.len(),
            out@.len() == i,
            pairs_of_object(ov, all.subrange(0, i as int)) == Ok::<Seq<(MsgV, MsgV)>, CtyErrorV>(
                wire::pairs_view(out@),
            ),
            fine ==> forall|j: int|
                #![trigger wire::pairs_view(out@)[j]]
                0 <= j < i ==> wire::pairs_view(out@)[j].0 == MsgV::String(ov[j].0) && decodes_to(
                    wire::pairs_view(out@)[j].1,
                    ts[j],
                    ov[j].1,
                ),
        decreases attrs.entries.len() - i,
    {
        let ghost key = attrs.entries@[i as int].0@;
        proof {
            let b = all.subrange(0, i + 1);
            assert(b.subrange(0, i as int) =~= all.subrange(0, i as int));
            assert(all[i as int] == (key, attrs.entries@[i as int].1@));
            assert(b[i as int] == all[i as int]);
        }
        let k = Msg::String(attrs.entries[i].0.clone());
        match o.position(attrs.entries[i].0.as_str()) {
            Some(p) => {
                proof {
                    assert(decreases_to!(o.entries => o.entries@[p as int]));
                    lemma_find_at(ov, key, p as int);
                    assert(ov[p as int].1 == o.entries@[p as int].1@);
                    if fine {
                        assert(ov[i as int].0 == all[i as int].0);
                        assert(ov[p as int].0 == all[p as int].0);
                        lemma_sorted_index(all, i as int, p as int);
                    }
                }
                match to_rmpv(&o.entries[p].1, &attrs.entries[i].1) {
                    Ok(x) => {
                        proof {
                            assert(wire::pairs_view(out@.push((k, x))) =~= wire::pairs_view(
                                out@,
                            ).push((k@, x@)));
                        }
                        out.push((k, x));
                    },
                    Err(e) => {
                        proof {
                            lemma_object_error(ov, all, i + 1);
                        }
                        return Err(e);
                    },
                }
            },
            None => {
                proof {
                    lemma_find_none(ov, key);
                    if fine {
                        assert(ov[i as int].0 == key);
                        assert(o@[i as int].0 == key);
                    }
                    assert(wire::pairs_view(out@.push((k, Msg::Nil))) =~= wire::pairs_view(out@).push(
                        (k@, MsgV::Nil),
                    ));
                }
                out.push((k, Msg::Nil));
            },
        }
        i += 1;
    }
    proof {
        assert(all.subrange(0, all.len() as int) =~= all);
        wire::lemma_pairs_view(out);
        if fine {
            assert forall|i: int| #![trigger ov[i]] 0 <= i < ov.len() implies ov[i].0 == all[i].0 by {
                assert(value::members_view(o@)[i].0 == types::attrs_view(attrs@)[i].0);
            }
            lemma_object_decodes(wire::pairs_view(out@), all, ov);
        }
    }
    Ok(Msg::Pairs(out))
}

/// Equal keys of a sorted sequence stand at one place.
proof fn lemma_sorted_index(s: Seq<(Seq<char>, TypeV)>, i: int, j: int)
    requires
        ordmap::sorted(s),
        0 <= i < s.len(),
        0 <= j < s.len(),
        s[i].0 == s[j].0,
    ensures
        i == j,
{
    text::lemma_lex_irreflexive(s[i].0);
}

/// Encode a value under a type.
///
/// A value that has the shape of the type, within the readers' limits, is
/// given back by [`unmarshal`] under the same type.
pub fn marshal(value: &CtyValue, ty: &CtyType) -> (r: Result<Vec<u8>, CtyError>)
    ensures
        match msg_of_value(value@, ty@) {
            Ok(m) => r is Ok && r->Ok_0@ == wire::msg_bytes(m),
            Err(e) => r is Err && r->Err_0@ == e,
        },
        conforms(value@, ty@) && wire::fits(msg_of_value(value@, ty@)->Ok_0, 1024) ==> r is Ok
            && value_of_bytes(r->Ok_0@, ty@) == Ok::<ValueV, CtyErrorV>(value@),
    decreases value, dynamic_rank(ty@), 1int,
{
    match to_rmpv(value, ty) {
        Ok(m) => Ok(wire::write_message(&m)),
        Err(e) => Err(e),
    }
}

// ── Facts about encoding ───────────────────────────────────────────

proof fn lemma_list_error(xs: Seq<ValueV>, e: TypeV, n: int)
    requires
        0 <= n <= xs.len(),
        msgs_of_list(xs.subrange(0, n), e) is Err,
    ensures
        msgs_of_list(xs, e) == msgs_of_list(xs.subrange(0, n), e),
    decreases xs.len() - n,
{
    if n == xs.len() {
        assert(xs.subrange(0, n) =~= xs);
    } else {
        let b = xs.subrange(0, n + 1);
        assert(b.subrange(0, n) =~= xs.subrange(0, n));
        lemma_list_error(xs, e, n + 1);
    }
}

proof fn lemma_tuple_error(xs: Seq<ValueV>, ts: Seq<TypeV>, n: int)
    requires
        0 <= n <= xs.len(),
        msgs_of_tuple(xs.subrange(0, n), ts) is Err,
    ensures
        msgs_of_tuple(xs, ts) == msgs_of_tuple(xs.subrange(0, n), ts),
    decreases xs.len() - n,
{
    if n == xs.len() {
        assert(xs.subrange(0, n) =~= xs);
    } else {
        let b = xs.subrange(0, n + 1);
        assert(b.subrange(0, n) =~= xs.subrange(0, n));
        lemma_tuple_error(xs, ts, n + 1);
    }
}

proof fn lemma_map_error(m: Seq<(Seq<char>, ValueV)>, e: TypeV, n: int)
    requires
        0 <= n <= m.len(),
        pairs_of_map(m.subrange(0, n), e) is Err,
    ensures
        pairs_of_map(m, e) == pairs_of_map(m.subrange(0, n), e),
    decreases m.len() - n,
{
    if n == m.len() {
        assert(m.subrange(0, n) =~= m);
    } else {
        let b = m.subrange(0, n + 1);
        assert(b.subrange(0, n) =~= m.subrange(0, n));
        lemma_map_error(m, e, n + 1);
    }
}

proof fn lemma_object_error(
    o: Seq<(Seq<char>, ValueV)>,
    attrs: Seq<(Seq<char>, TypeV)>,
    n: int,
)
    requires
        0 <= n <= attrs.len(),
        pairs_of_object(o, attrs.subrange(0, n)) is Err,
    ensures
        pairs_of_object(o, attrs) == pairs_of_object(o, attrs.subrange(0, n)),
    decreases attrs.len() - n,
{
    if n == attrs.len() {
        assert(attrs.subrange(0, n) =~= attrs);
    } else {
        let b = attrs.subrange(0, n + 1);
        assert(b.subrange(0, n) =~= attrs.subrange(0, n));
        lemma_object_error(o, attrs, n + 1);
    }
}

proof fn lemma_find_at(m: Seq<(Seq<char>, ValueV)>, key: Seq<char>, i: int)
    requires
        0 <= i < m.len(),
        m[i].0 == key,
        forall|j: int| 0 <= j < i ==> (#[trigger] m[j]).0 != key,
    ensures
        find_member(m, key) == i,
    decreases i,
{
    if i > 0 {
        assert(m[0].0 != key);
        let t = m.drop_first();
        assert forall|j: int| 0 <= j < i - 1 implies (#[trigger] t[j]).0 != key by {
            assert(t[j] == m[j + 1]);
        }
        lemma_find_at(t, key, i - 1);
    }
}

proof fn lemma_find_none(m: Seq<(Seq<char>, ValueV)>, key: Seq<char>)
    requires
        forall|j: int| 0 <= j < m.len() ==> (#[trigger] m[j]).0 != key,
    ensures
        find_member(m, key) == m.len(),
    decreases m.len(),
{
    if m.len() > 0 {
        assert(m[0].0 != key);
        let t = m.drop_first();
        assert forall|j: int| 0 <= j < t.len() implies (#[trigger] t[j]).0 != key by {
            assert(t[j] == m[j + 1]);
        }
        lemma_find_none(t, key);
    }
}

// ── Decoding ───────────────────────────────────────────────────────

fn decode_mismatch(expected: &str, rv: &Msg) -> (r: CtyError)
    ensures
        r@ == decode_error(expected@, rv@),
{
    let t = wire::debug_message(rv);
    CtyError::Decode(text::join4("msgpack ", t.as_str(), " does not decode as cty ", expected))
}

fn float_to_value(bits: u64) -> (r: Result<CtyValue, CtyError>)
    ensures
        cty::outcome(r) == float_value(bits),
{
    if (bits / 0x10_0000_0000_0000) % 2048 != 2047 {
        Ok(CtyValue::Number(Number::Float(bits)))
    } else {
        Err(CtyError::Decode("non-finite float".to_owned()))
    }
}

fn rmpv_to_number(rv: &Msg) -> (r: Result<CtyValue, CtyError>)
    ensures
        cty::outcome(r) == number_of_msg(rv@),
{
    match rv {
        Msg::Integer(Int::PosInt(u)) => Ok(CtyValue::Number(Number::PosInt(*u))),
        Msg::Integer(Int::NegInt(i)) => Ok(CtyValue::integer(*i)),
        Msg::F64(b) => float_to_value(*b),
        Msg::F32(b) => float_to_value(wire::widen(*b)),
        _ => Err(decode_mismatch("number", rv)),
    }
}

/// The bytes of a string or a binary.
fn message_slice(rv: &Msg) -> (r: Option<&[u8]>)
    ensures
        match r {
            Some(b) => wire::slice_of(rv@) == Some(b@),
            None => wire::slice_of(rv@) is None,
        },
{
    match rv {
        Msg::Binary(b) => Some(b.as_slice()),
        Msg::RawString(b) => Some(b.as_slice()),
        Msg::String(s) => Some(s.as_str().as_bytes()),
        _ => None,
    }
}

/// The value that a message stands for under a type. `size` is the length of
/// the bytes that the message was read from.
fn from_rmpv(rv: &Msg, ty: &CtyType, Ghost(size): Ghost<nat>) -> (r: Result<CtyValue, CtyError>)
    requires
        wire::slices_below(rv@, size),
    ensures
        cty::outcome(r) == value_of_msg(size, rv@, ty@),
    decreases size, 0int, rv,
{
    match rv {
        Msg::Nil => {
            return Ok(CtyValue::Null);
        },
        Msg::Ext(code, _) => {
            if *code == UNKNOWN_EXT {
                return Ok(CtyValue::Unknown);
            }
        },
        _ => {},
    }
    match ty {
        CtyType::String => match rv {
            Msg::String(s) => Ok(CtyValue::String(s.clone())),
            _ => Err(decode_mismatch("string", rv)),
        },
        CtyType::Bool => match rv {
            Msg::Boolean(b) => Ok(CtyValue::Bool(*b)),
            _ => Err(decode_mismatch("bool", rv)),
        },
        CtyType::Number => rmpv_to_number(rv),
        CtyType::List(e) => match rv {
            Msg::Array(xs) => {
                proof {
                    wire::lemma_array_view(*xs);
                    assert(rv@->Array_0 == wire::msgs_view(xs@));
                }
                match decode_seq(xs, e, Ghost(size)) {
                    Ok(vs) => {
                        proof {
                            value::lemma_values_view(vs);
                        }
                        Ok(CtyValue::List(vs))
                    },
                    Err(err) => Err(err),
                }
            },
            _ => Err(decode_mismatch("list/set", rv)),
        },
        CtyType::SetOf(e) => match rv {
            Msg::Array(xs) => {
                proof {
                    wire::lemma_array_view(*xs);
                    assert(rv@->Array_0 == wire::msgs_view(xs@));
                }
                match decode_seq(xs, e, Ghost(size)) {
                    Ok(vs) => {
                        proof {
                            value::lemma_values_view(vs);
                        }
                        Ok(CtyValue::SetOf(vs))
                    },
                    Err(err) => Err(err),
                }
            },
            _ => Err(decode_mismatch("list/set", rv)),
        },
        CtyType::Tuple(types) => match rv {
            Msg::Array(xs) => {
                proof {
                    wire::lemma_array_view(*xs);
                    types::lemma_tuple_type_view(*types);
                    assert(rv@->Array_0 == wire::msgs_view(xs@));
                    assert(ty@->Tuple_0 == types::types_view(types@));
                }
                if xs.len() != types.len() {
                    let a = text::decimal_text(xs.len());
                    let b = text::decimal_text(types.len());
                    let msg = text::join4(
                        "tuple arity mismatch: msgpack has ",
                        a.as_str(),
                        ", type has ",
                        b.as_str(),
                    );
                    return Err(CtyError::Decode(msg));
                }
                match decode_tuple(xs, types, Ghost(size)) {
                    Ok(vs) => {
                        proof {
                            value::lemma_values_view(vs);
                        }
                        Ok(CtyValue::Tuple(vs))
                    },
                    Err(err) => Err(err),
                }
            },
            _ => Err(decode_mismatch("tuple", rv)),
        },
        CtyType::MapOf(e) => match rv {
            Msg::Pairs(ps) => {
                proof {
                    wire::lemma_pairs_view(*ps);
                    assert(rv@->Pairs_0 == wire::pairs_view(ps@));
                }
                match decode_map(ps, e, Ghost(size)) {
                    Ok(o) => {
                        proof {
                            value::lemma_members_view(o);
                        }
                        Ok(CtyValue::MapOf(o))
                    },
                    Err(err) => Err(err),
                }
            },
            _ => Err(decode_mismatch("map", rv)),
        },
        CtyType::Object(attrs) => match rv {
            Msg::Pairs(ps) => {
                proof {
                    wire::lemma_pairs_view(*ps);
                    types::lemma_object_type_view(*attrs);
                    assert(rv@->Pairs_0 == wire::pairs_view(ps@));
                    assert(ty@->Object_0 == types::attrs_view(attrs@));
                }
                match decode_object(ps, attrs, Ghost(size)) {
                    Ok(o) => {
                        proof {
                            value::lemma_members_view(o);
                        }
                        Ok(CtyValue::Object(o))
                    },
                    Err(err) => Err(err),
                }
            },
            _ => Err(decode_mismatch("object", rv)),
        },
        CtyType::DynamicPseudoType => match rv {
            Msg::Array(xs) => {
                proof {
                    wire::lemma_array_view(*xs);
                    assert(rv@->Array_0 == wire::msgs_view(xs@));
                }
                if xs.len() != 2 {
                    return Err(CtyError::Decode("dynamic wrapper must be a 2-array".to_owned()));
                }
                proof {
                    assert(wire::msgs_view(xs@)[0] == xs@[0]@);
                    assert(wire::msgs_view(xs@)[1] == xs@[1]@);
                    assert(rv@->Array_0[1] == xs@[1]@);
                    assert(wire::slices_below(xs@[1]@, size));
                }
                let type_bytes = match message_slice(&xs[0]) {
                    Some(b) => b,
                    None => {
                        return Err(CtyError::Decode("dynamic type not bin".to_owned()));
                    },
                };
                let type_json = match json::from_bytes(type_bytes) {
                    Ok(j) => j,
                    Err(e) => {
                        return Err(
                            CtyError::Decode(text::join2("dynamic type json: ", e.as_str())),
                        );
                    },
                };
                let concrete = match CtyType::from_json(&type_json) {
                    Ok(t) => t,
                    Err(e) => {
                        return Err(e);
                    },
                };
                match message_slice(&xs[1]) {
                    Some(val_bytes) => unmarshal(val_bytes, &concrete),
                    None => Err(CtyError::Decode("dynamic value not bin".to_owned())),
                }
            },
            _ => Err(decode_mismatch("dynamic", rv)),
        },
    }
}

#[verifier::loop_isolation(false)]
fn decode_seq(xs: &Vec<Msg>, elem: &CtyType, Ghost(size): Ghost<nat>) -> (r: Result<
    Vec<CtyValue>,
    CtyError,
>)
    requires
        forall|i: int|
            #![trigger wire::msgs_view(xs@)[i]]
            0 <= i < xs@.len() ==> wire::slices_below(wire::msgs_view(xs@)[i], size),
    ensures
        match r {
            Ok(vs) => list_of_msgs(size, wire::msgs_view(xs@), elem@) == Ok::<
                Seq<ValueV>,
                CtyErrorV,
            >(value::values_view(vs@)),
            Err(e) => list_of_msgs(size, wire::msgs_view(xs@), elem@) == Err::<
                Seq<ValueV>,
                CtyErrorV,
            >(e@),
        },
    decreases size, 0int, xs,
{
    let mut out: Vec<CtyValue> = Vec::new();
    let mut i: usize = 0;
    let ghost all = wire::msgs_view(xs@);
    proof {
        assert(all.subrange(0, 0) =~= Seq::empty());
        assert(value::values_view(out@) =~= Seq::empty());
    }
    while i < xs.len()
        invariant
            i <= xs@.len(),
            list_of_msgs(size, all.subrange(0, i as int), elem@) == Ok::<Seq<ValueV>, CtyErrorV>(
                value::values_view(out@),
            ),
        decreases xs.len() - i,
    {
        proof {
            assert(decreases_to!(*xs => xs@[i as int]));
            let b = all.subrange(0, i + 1);
            assert(b.subrange(0, i as int) =~= all.subrange(0, i as int));
            assert(all[i as int] == xs@[i as int]@);
            assert(b[i as int] == all[i as int]);
        }
        match from_rmpv(&xs[i], elem, Ghost(size)) {
            Ok(v) => {
                proof {
                    assert(value::values_view(out@.push(v)) =~= value::values_view(out@).push(v@));
                }
                out.push(v);
            },
            Err(e) => {
                proof {
                    lemma_msgs_error(size, all, elem@, i + 1);
                }
                return Err(e);
            },
        }
        i += 1;
    }
    proof {
        assert(all.subrange(0, all.len() as int) =~= all);
    }
    Ok(out)
}

#[verifier::loop_isolation(false)]
fn decode_tuple(xs: &Vec<Msg>, types: &Vec<CtyType>, Ghost(size): Ghost<nat>) -> (r: Result<
    Vec<CtyValue>,
    CtyError,
>)
    requires
        xs@.len() == types@.len(),
        forall|i: int|
            #![trigger wire::msgs_view(xs@)[i]]
            0 <= i < xs@.len() ==> wire::slices_below(wire::msgs_view(xs@)[i], size),
    ensures
        match r {
            Ok(vs) => tuple_of_msgs(size, wire::msgs_view(xs@), types::types_view(types@)) == Ok::<
                Seq<ValueV>,
                CtyErrorV,
            >(value::values_view(vs@)),
            Err(e) => tuple_of_msgs(size, wire::msgs_view(xs@), types::types_view(types@)) == Err::<
                Seq<ValueV>,
                CtyErrorV,
            >(e@),
        },
    decreases size, 0int, xs,
{
    let mut out: Vec<CtyValue> = Vec::new();
    let mut i: usize = 0;
    let ghost all = wire::msgs_view(xs@);
    let ghost ts = types::types_view(types@);
    proof {
        assert(all.subrange(0, 0) =~= Seq::empty());
        assert(value::values_view(out@) =~= Seq::empty());
    }
    while i < xs.len()
        invariant
            i <= xs@.len(),
            tuple_of_msgs(size, all.subrange(0, i as int), ts) == Ok::<Seq<ValueV>, CtyErrorV>(
                value::values_view(out@),
            ),
        decreases xs.len() - i,
    {
        proof {
            assert(decreases_to!(*xs => xs@[i as int]));
            let b = all.subrange(0, i + 1);
            assert(b.subrange(0, i as int) =~= all.subrange(0, i as int));
            assert(all[i as int] == xs@[i as int]@);
            assert(b[i as int] == all[i as int]);
            assert(ts[i as int] == types@[i as int]@);
        }
        match from_rmpv(&xs[i], &types[i], Ghost(size)) {
            Ok(v) => {
                proof {
                    assert(value::values_view(out@.push(v)) =~= value::values_view(out@).push(v@));
                }
                out.push(v);
            },
            Err(e) => {
                proof {
                    lemma_msg_tuple_error(size, all, ts, i + 1);
                }
                return Err(e);
            },
        }
        i += 1;
    }
    proof {
        assert(all.subrange(0, all.len() as int) =~= all);
    }
    Ok(out)
}

#[verifier::loop_isolation(false)]
fn decode_map(ps: &Vec<(Msg, Msg)>, elem: &CtyType, Ghost(size): Ghost<nat>) -> (r: Result<
    StrMap<CtyValue>,
    CtyError,
>)
    requires
        forall|i: int|
            #![trigger wire::pairs_view(ps@)[i]]
            0 <= i < ps@.len() ==> wire::slices_below(wire::pairs_view(ps@)[i].1, size),
    ensures
        match r {
            Ok(o) => map_of_pairs(size, wire::pairs_view(ps@), elem@) == Ok::<
                Seq<(Seq<char>, ValueV)>,
                CtyErrorV,
            >(value::members_view(o@)),
            Err(e) => map_of_pairs(size, wire::pairs_view(ps@), elem@) == Err::<
                Seq<(Seq<char>, ValueV)>,
                CtyErrorV,
            >(e@),
        },
    decreases size, 0int, ps,
{
    let mut out: StrMap<CtyValue> = StrMap::new();
    let mut i: usize = 0;
    let ghost all = wire::pairs_view(ps@);
    proof {
        assert(all.subrange(0, 0) =~= Seq::empty());
        assert(value::members_view(out@) =~= Seq::empty());
    }
    while i < ps.len()
        invariant
            i <= ps@.len(),
            map_of_pairs(size, all.subrange(0, i as int), elem@) == Ok::<
                Seq<(Seq<char>, ValueV)>,
                CtyErrorV,
            >(value::members_view(out@)),
        decreases ps.len() - i,
    {
        proof {
            assert(decreases_to!(*ps => ps@[i as int]));
            let b = all.subrange(0, i + 1);
            assert(b.subrange(0, i as int) =~= all.subrange(0, i as int));
            assert(all[i as int] == (ps@[i as int].0@, ps@[i as int].1@));
            assert(b[i as int] == all[i as int]);
        }
        let key = match &ps[i].0 {
            Msg::String(k) => k.clone(),
            _ => {
                proof {
                    lemma_map_pairs_error(size, all, elem@, i + 1);
                }
                return Err(CtyError::Decode("map key not a string".to_owned()));
            },
        };
        match from_rmpv(&ps[i].1, elem, Ghost(size)) {
            Ok(v) => {
                proof {
                    ordmap::lemma_map_vals_put(out@, |v: CtyValue| v@, key@, v);
                }
                out.insert(key, v);
            },
            Err(e) => {
                proof {
                    lemma_map_pairs_error(size, all, elem@, i + 1);
                }
                return Err(e);
            },
        }
        i += 1;
    }
    proof {
        assert(all.subrange(0, all.len() as int) =~= all);
    }
    Ok(out)
}

#[verifier::loop_isolation(false)]
fn decode_object(
    ps: &Vec<(Msg, Msg)>,
    attrs: &StrMap<CtyType>,
    Ghost(size): Ghost<nat>,
) -> (r: Result<StrMap<CtyValue>, CtyError>)
    requires
        forall|i: int|
            #![trigger wire::pairs_view(ps@)[i]]
            0 <= i < ps@.len() ==> wire::slices_below(wire::pairs_view(ps@)[i].1, size),
    ensures
        match r {
            Ok(o) => object_of_pairs(size, wire::pairs_view(ps@), types::attrs_view(attrs@)) == Ok::<
                Seq<(Seq<char>, ValueV)>,
                CtyErrorV,
            >(value::members_view(o@)),
            Err(e) => object_of_pairs(size, wire::pairs_view(ps@), types::attrs_view(attrs@))
                == Err::<Seq<(Seq<char>, ValueV)>, CtyErrorV>(e@),
        },
    decreases size, 0int, ps,
{
    let mut out: StrMap<CtyValue> = StrMap::new();
    let mut i: usize = 0;
    let ghost all = wire::pairs_view(ps@);
    let ghost av = types::attrs_view(attrs@);
    proof {
        assert(all.subrange(0, 0) =~= Seq::empty());
        assert(value::members_view(out@) =~= Seq::empty());
    }
    while i < ps.len()
        invariant
            i <= ps@.len(),
            object_of_pairs(size, all.subrange(0, i as int), av) == Ok::<
                Seq<(Seq<char>, ValueV)>,
                CtyErrorV,
            >(value::members_view(out@)),
        decreases ps.len() - i,
    {
        proof {
            assert(decreases_to!(*ps => ps@[i as int]));
            let b = all.subrange(0, i + 1);
            assert(b.subrange(0, i as int) =~= all.subrange(0, i as int));
            assert(all[i as int] == (ps@[i as int].0@, ps@[i as int].1@));
            assert(b[i as int] == all[i as int]);
        }
        let key = match &ps[i].0 {
            Msg::String(k) => k.clone(),
            _ => {
                proof {
                    lemma_object_pairs_error(size, all, av, i + 1);
                }
                return Err(CtyError::Decode("object key not a string".to_owned()));
            },
        };
        proof {
            ordmap::lemma_map_vals_lookup(attrs@, |t: CtyType| t@, key@);
        }
        if let Some(aty) = attrs.get(key.as_str()) {
            match from_rmpv(&ps[i].1, aty, Ghost(size)) {
                Ok(v) => {
                    proof {
                        ordmap::lemma_map_vals_put(out@, |v: CtyValue| v@, key@, v);
                    }
                    out.insert(key, v);
                },
                Err(e) => {
                    proof {
                        lemma_object_pairs_error(size, all, av, i + 1);
                    }
                    return Err(e);
                },
            }
        }
        i += 1;
    }
    proof {
        assert(all.subrange(0, all.len() as int) =~= all);
    }
    Ok(out)
}

/// Decode bytes under a type.
pub fn unmarshal(bytes: &[u8], ty: &CtyType) -> (r: Result<CtyValue, CtyError>)
    ensures
        cty::outcome(r) == value_of_bytes(bytes@, ty@),
    decreases bytes@.len(), 1int, ty,
{
    match wire::read_message(bytes) {
        Ok(rv) => from_rmpv(&rv, ty, Ghost(bytes@.len())),
        Err(e) => Err(CtyError::Decode(e)),
    }
}

/// The value that a message stands for under a type, whatever bytes it was
/// read from.
pub fn decode_message(rv: &Msg, ty: &CtyType) -> (r: Result<CtyValue, CtyError>)
    ensures
        forall|size: nat| #[trigger]
            wire::slices_below(rv@, size) ==> cty::outcome(r) == value_of_msg(size, rv@, ty@),
        exists|size: nat| #[trigger] wire::slices_below(rv@, size),
{
    let ghost enough = lemma_some_size(rv@);
    let r = from_rmpv(rv, ty, Ghost(enough));
    proof {
        assert forall|size: nat| #[trigger] wire::slices_below(rv@, size) implies cty::outcome(r)
            == value_of_msg(size, rv@, ty@) by {
            lemma_any_size(enough, size, rv@, ty@);
        }
    }
    r
}

// ── Laws ───────────────────────────────────────────────────────────

proof fn lemma_list_gathers(xs: Seq<ValueV>, e: TypeV, n: int)
    requires
        0 <= n <= xs.len(),
    ensures
        gather::gathered(msgs_of_list(xs.subrange(0, n), e), n, |i: int| msg_of_value(xs[i], e)),
    decreases n,
{
    if n > 0 {
        lemma_list_gathers(xs, e, n - 1);
        let b = xs.subrange(0, n);
        let a = xs.subrange(0, n - 1);
        assert(b.subrange(0, n - 1) =~= a);
        gather::lemma_gathered_push(
            msgs_of_list(a, e),
            msgs_of_list(b, e),
            n - 1,
            |i: int| msg_of_value(xs[i], e),
        );
    }
}

/// A list or set becomes an array element by element, under a list type as
/// under a set type: each element becomes what it becomes alone, and the first
/// that cannot is the error of the whole.
pub proof fn law_lists_are_written_by_element(v: ValueV, ty: TypeV, xs: Seq<ValueV>, e: TypeV)
    requires
        v == ValueV::List(xs) || v == ValueV::SetOf(xs),
        ty == TypeV::List(Box::new(e)) || ty == TypeV::SetOf(Box::new(e)),
    ensures
        match msg_of_value(v, ty) {
            Ok(m) => m is Array && gather::gathered(
                Ok(m->Array_0),
                xs.len() as int,
                |i: int| msg_of_value(xs[i], e),
            ),
            Err(err) => gather::gathered(
                Err::<Seq<MsgV>, CtyErrorV>(err),
                xs.len() as int,
                |i: int| msg_of_value(xs[i], e),
            ),
        },
{
    lemma_list_gathers(xs, e, xs.len() as int);
    assert(xs.subrange(0, xs.len() as int) =~= xs);
}

proof fn lemma_tuple_gathers(xs: Seq<ValueV>, ts: Seq<TypeV>, n: int)
    requires
        0 <= n <= xs.len(),
    ensures
        gather::gathered(msgs_of_tuple(xs.subrange(0, n), ts), n, |i: int| msg_of_value(xs[i], ts[i])),
    decreases n,
{
    if n > 0 {
        lemma_tuple_gathers(xs, ts, n - 1);
        let b = xs.subrange(0, n);
        let a = xs.subrange(0, n - 1);
        assert(b.subrange(0, n - 1) =~= a);
        gather::lemma_gathered_push(
            msgs_of_tuple(a, ts),
            msgs_of_tuple(b, ts),
            n - 1,
            |i: int| msg_of_value(xs[i], ts[i]),
        );
    }
}

/// A tuple becomes an array under a type of its own length and no other, each
/// element under the type at its own place.
pub proof fn law_tuples_are_written_by_place(xs: Seq<ValueV>, ts: Seq<TypeV>)
    ensures
        xs.len() != ts.len() ==> msg_of_value(ValueV::Tuple(xs), TypeV::Tuple(ts)) is Err,
        xs.len() == ts.len() ==> match msg_of_value(ValueV::Tuple(xs), TypeV::Tuple(ts)) {
            Ok(m) => m is Array && gather::gathered(
                Ok(m->Array_0),
                xs.len() as int,
                |i: int| msg_of_value(xs[i], ts[i]),
            ),
            Err(err) => gather::gathered(
                Err::<Seq<MsgV>, CtyErrorV>(err),
                xs.len() as int,
                |i: int| msg_of_value(xs[i], ts[i]),
            ),
        },
{
    lemma_tuple_gathers(xs, ts, xs.len() as int);
    assert(xs.subrange(0, xs.len() as int) =~= xs);
}

/// A message under its name.
spec fn keyed(key: Seq<char>, r: Result<MsgV, CtyErrorV>) -> Result<(MsgV, MsgV), CtyErrorV> {
    match r {
        Ok(m) => Ok((MsgV::String(key), m)),
        Err(e) => Err(e),
    }
}

proof fn lemma_map_gathers(m: Seq<(Seq<char>, ValueV)>, e: TypeV, n: int)
    requires
        0 <= n <= m.len(),
    ensures
        gather::gathered(
            pairs_of_map(m.subrange(0, n), e),
            n,
            |i: int| keyed(m[i].0, msg_of_value(m[i].1, e)),
        ),
    decreases n,
{
    if n > 0 {
        lemma_map_gathers(m, e, n - 1);
        let b = m.subrange(0, n);
        let a = m.subrange(0, n - 1);
        assert(b.subrange(0, n - 1) =~= a);
        gather::lemma_gathered_push(
            pairs_of_map(a, e),
            pairs_of_map(b, e),
            n - 1,
            |i: int| keyed(m[i].0, msg_of_value(m[i].1, e)),
        );
    }
}

/// A map becomes pairs member by member, each with its own key as a string;
/// the first member that cannot is the error of the whole.
pub proof fn law_maps_are_written_by_member(m: Seq<(Seq<char>, ValueV)>, e: TypeV)
    ensures
        match msg_of_value(ValueV::MapOf(m), TypeV::MapOf(Box::new(e))) {
            Ok(r) => r is Pairs && r->Pairs_0.len() == m.len() && forall|i: int|
                0 <= i < m.len() ==> (#[trigger] r->Pairs_0[i]).0 == MsgV::String(m[i].0)
                    && msg_of_value(m[i].1, e) == Ok::<MsgV, CtyErrorV>(r->Pairs_0[i].1),
            Err(err) => exists|i: int|
                0 <= i < m.len() && msg_of_value((#[trigger] m[i]).1, e) == Err::<MsgV, CtyErrorV>(
                    err,
                ) && forall|j: int| 0 <= j < i ==> msg_of_value((#[trigger] m[j]).1, e) is Ok,
        },
{
    lemma_map_gathers(m, e, m.len() as int);
    assert(m.subrange(0, m.len() as int) =~= m);
    let each = |i: int| keyed(m[i].0, msg_of_value(m[i].1, e));
    match pairs_of_map(m, e) {
        Ok(ps) => {
            assert forall|i: int| 0 <= i < m.len() implies (#[trigger] ps[i]).0 == MsgV::String(
                m[i].0,
            ) && msg_of_value(m[i].1, e) == Ok::<MsgV, CtyErrorV>(ps[i].1) by {
                assert(each(i) == Ok::<(MsgV, MsgV), CtyErrorV>(ps[i]));
            }
        },
        Err(err) => {
            let i = choose|i: int|
                0 <= i < m.len() && #[trigger] each(i) == Err::<(MsgV, MsgV), CtyErrorV>(err)
                    && forall|j: int| 0 <= j < i ==> #[trigger] each(j) is Ok;
            assert(msg_of_value(m[i].1, e) == Err::<MsgV, CtyErrorV>(err));
            assert forall|j: int| 0 <= j < i implies msg_of_value((#[trigger] m[j]).1, e) is Ok by {
                assert(each(j) is Ok);
            }
        },
    }
}

proof fn lemma_find_cases(m: Seq<(Seq<char>, ValueV)>, key: Seq<char>)
    ensures
        gather::first_under(m, key, find_member(m, key)) || (find_member(m, key) == m.len()
            && gather::none_under(m, key)),
    decreases m.len(),
{
    if m.len() > 0 && m[0].0 != key {
        let t = m.drop_first();
        lemma_find_cases(t, key);
        if gather::first_under(t, key, find_member(t, key)) {
            assert forall|k: int| 0 <= k < find_member(m, key) implies (#[trigger] m[k]).0
                != key by {
                if k > 0 {
                    assert(t[k - 1].0 != key);
                }
            }
        } else {
            assert forall|k: int| 0 <= k < m.len() implies (#[trigger] m[k]).0 != key by {
                if k > 0 {
                    assert(t[k - 1].0 != key);
                }
            }
        }
    }
}

/// What an object has under an attribute, as a message.
spec fn attribute(o: Seq<(Seq<char>, ValueV)>, key: Seq<char>, ty: TypeV) -> Result<MsgV, CtyErrorV> {
    let at = find_member(o, key);
    if 0 <= at < o.len() {
        msg_of_value(o[at].1, ty)
    } else {
        Ok(MsgV::Nil)
    }
}

proof fn lemma_object_gathers(o: Seq<(Seq<char>, ValueV)>, attrs: Seq<(Seq<char>, TypeV)>, n: int)
    requires
        0 <= n <= attrs.len(),
    ensures
        gather::gathered(
            pairs_of_object(o, attrs.subrange(0, n)),
            n,
            |i: int| keyed(attrs[i].0, attribute(o, attrs[i].0, attrs[i].1)),
        ),
    decreases n,
{
    if n > 0 {
        lemma_object_gathers(o, attrs, n - 1);
        let b = attrs.subrange(0, n);
        let a = attrs.subrange(0, n - 1);
        assert(b.subrange(0, n - 1) =~= a);
        gather::lemma_gathered_push(
            pairs_of_object(o, a),
            pairs_of_object(o, b),
            n - 1,
            |i: int| keyed(attrs[i].0, attribute(o, attrs[i].0, attrs[i].1)),
        );
    }
}

/// An object becomes one pair for each attribute of its type, in the type's
/// order, however many members it has: the value of that name under the
/// attribute's own type, nil where the object has none. It is refused only
/// where such a value cannot become a message.
pub proof fn law_objects_are_written_by_attribute(
    o: Seq<(Seq<char>, ValueV)>,
    attrs: Seq<(Seq<char>, TypeV)>,
)
    ensures
        match msg_of_value(ValueV::Object(o), TypeV::Object(attrs)) {
            Ok(m) => {
                &&& m is Pairs
                &&& m->Pairs_0.len() == attrs.len()
                &&& forall|i: int|
                    0 <= i < attrs.len() ==> (#[trigger] m->Pairs_0[i]).0 == MsgV::String(
                        attrs[i].0,
                    )
                &&& forall|i: int, j: int|
                    0 <= i < attrs.len() && #[trigger] gather::first_under(o, attrs[i].0, j)
                        ==> msg_of_value(o[j].1, attrs[i].1) == Ok::<MsgV, CtyErrorV>(
                        m->Pairs_0[i].1,
                    )
                &&& forall|i: int|
                    0 <= i < attrs.len() && #[trigger] gather::none_under(o, attrs[i].0)
                        ==> m->Pairs_0[i].1 is Nil
            },
            Err(err) => exists|i: int, j: int|
                0 <= i < attrs.len() && #[trigger] gather::first_under(o, attrs[i].0, j)
                    && msg_of_value(o[j].1, attrs[i].1) == Err::<MsgV, CtyErrorV>(err) && forall|
                    k: int,
                    l: int,
                |
                    0 <= k < i && #[trigger] gather::first_under(o, attrs[k].0, l) ==> msg_of_value(
                        o[l].1,
                        attrs[k].1,
                    ) is Ok,
        },
{
    lemma_object_gathers(o, attrs, attrs.len() as int);
    assert(attrs.subrange(0, attrs.len() as int) =~= attrs);
    let each = |i: int| keyed(attrs[i].0, attribute(o, attrs[i].0, attrs[i].1));
    match pairs_of_object(o, attrs) {
        Ok(ps) => {
            assert forall|i: int| 0 <= i < attrs.len() implies (#[trigger] ps[i]).0
                == MsgV::String(attrs[i].0) && attribute(o, attrs[i].0, attrs[i].1) == Ok::<
                MsgV,
                CtyErrorV,
            >(ps[i].1) by {
                assert(each(i) == Ok::<(MsgV, MsgV), CtyErrorV>(ps[i]));
            }
            assert forall|i: int, j: int|
                0 <= i < attrs.len() && #[trigger] gather::first_under(
                    o,
                    attrs[i].0,
                    j,
                ) implies msg_of_value(o[j].1, attrs[i].1) == Ok::<MsgV, CtyErrorV>(ps[i].1) by {
                lemma_find_at(o, attrs[i].0, j);
                assert(ps[i].0 == MsgV::String(attrs[i].0));
            }
            assert forall|i: int|
                0 <= i < attrs.len() && #[trigger] gather::none_under(
                    o,
                    attrs[i].0,
                ) implies ps[i].1 is Nil by {
                lemma_find_none(o, attrs[i].0);
                assert(ps[i].0 == MsgV::String(attrs[i].0));
            }
        },
        Err(err) => {
            let i = choose|i: int|
                0 <= i < attrs.len() && #[trigger] each(i) == Err::<(MsgV, MsgV), CtyErrorV>(err)
                    && forall|j: int| 0 <= j < i ==> #[trigger] each(j) is Ok;
            lemma_find_cases(o, attrs[i].0);
            let j = find_member(o, attrs[i].0);
            assert(gather::first_under(o, attrs[i].0, j));
            assert forall|k: int, l: int|
                0 <= k < i && #[trigger] gather::first_under(
                    o,
                    attrs[k].0,
                    l,
                ) implies msg_of_value(o[l].1, attrs[k].1) is Ok by {
                assert(each(k) is Ok);
                lemma_find_at(o, attrs[k].0, l);
            }
        },
    }
}

/// Null and unknown are the same on the wire under every type, and come back
/// as what they are under every type; no other value is written as they are.
pub proof fn law_null_and_unknown_have_every_type(v: ValueV, ty: TypeV, size: nat)
    ensures
        msg_of_value(ValueV::Null, ty) == Ok::<MsgV, CtyErrorV>(MsgV::Nil),
        msg_of_value(ValueV::Unknown, ty) == Ok::<MsgV, CtyErrorV>(MsgV::Ext(0, seq![0u8])),
        value_of_msg(size, MsgV::Nil, ty) == Ok::<ValueV, CtyErrorV>(ValueV::Null),
        forall|b: Seq<u8>| #[trigger]
            value_of_msg(size, MsgV::Ext(0, b), ty) == Ok::<ValueV, CtyErrorV>(ValueV::Unknown),
        msg_of_value(v, ty) matches Ok(m) ==> (m is Nil <==> v is Null) && (m is Ext <==> v is Unknown),
{
}

/// A scalar is written as itself under its own type and comes back as itself;
/// under another plain type it is refused.
pub proof fn law_scalars_travel(s: Seq<char>, b: bool, n: Number, size: nat)
    ensures
        msg_of_value(ValueV::String(s), TypeV::String) == Ok::<MsgV, CtyErrorV>(MsgV::String(s)),
        msg_of_value(ValueV::Bool(b), TypeV::Bool) == Ok::<MsgV, CtyErrorV>(MsgV::Boolean(b)),
        value_of_msg(size, MsgV::String(s), TypeV::String) == Ok::<ValueV, CtyErrorV>(
            ValueV::String(s),
        ),
        value_of_msg(size, MsgV::Boolean(b), TypeV::Bool) == Ok::<ValueV, CtyErrorV>(
            ValueV::Bool(b),
        ),
        number_normal(n) ==> (msg_of_value(ValueV::Number(n), TypeV::Number) matches Ok(m)
            && value_of_msg(size, m, TypeV::Number) == Ok::<ValueV, CtyErrorV>(ValueV::Number(n))),
        forall|v: ValueV|
            !(v is Null) && !(v is Unknown) ==> {
                &&& (#[trigger] msg_of_value(v, TypeV::String)) is Ok <==> v is String
                &&& msg_of_value(v, TypeV::Bool) is Ok <==> v is Bool
                &&& msg_of_value(v, TypeV::Number) is Ok <==> v is Number
            },
{
}

/// A whole number is written as an integer of the same value, and no other
/// number is.
pub proof fn law_whole_numbers_are_integers(n: Number)
    ensures
        match n {
            Number::PosInt(u) => number_msg(n) == MsgV::Integer(Int::PosInt(u)),
            Number::NegInt(i) => number_msg(n) is Integer && match number_msg(n)->Integer_0 {
                Int::PosInt(u) => u == i,
                Int::NegInt(k) => k == i && k < 0,
            },
            Number::Float(b) => number_msg(n) == MsgV::F64(b),
        },
{
}

/// A number is read from an integer or a finite float, and from nothing else.
pub proof fn law_numbers_are_finite(m: MsgV)
    ensures
        number_of_msg(m) is Ok <==> match m {
            MsgV::Integer(_) => true,
            MsgV::F64(b) => wire::finite(b),
            MsgV::F32(b) => wire::finite32(b),
            _ => false,
        },
        m matches MsgV::Integer(Int::PosInt(u)) ==> number_of_msg(m) == Ok::<ValueV, CtyErrorV>(
            ValueV::Number(Number::PosInt(u)),
        ),
        m matches MsgV::Integer(Int::NegInt(i)) ==> number_of_msg(m) == Ok::<ValueV, CtyErrorV>(
            ValueV::Number(
                if i < 0 {
                    Number::NegInt(i)
                } else {
                    Number::PosInt(i as u64)
                },
            ),
        ),
        m matches MsgV::F64(b) ==> (wire::finite(b) ==> number_of_msg(m) == Ok::<
            ValueV,
            CtyErrorV,
        >(ValueV::Number(Number::Float(b)))),
{
}

/// A value under the dynamic type is wrapped together with its own type: the
/// type's JSON, and the bytes of what the value becomes under that type. It is
/// refused exactly where the value is refused under its own type.
pub proof fn law_dynamic_carries_its_type(v: ValueV)
    requires
        !(v is Null),
        !(v is Unknown),
    ensures
        match (msg_of_value(v, shape_of(v)), msg_of_value(v, TypeV::DynamicPseudoType)) {
            (Ok(inner), Ok(m)) => m is Array && m->Array_0.len() == 2 && m->Array_0[0]
                == MsgV::Binary(json::json_bytes(types::type_json(shape_of(v)))) && m->Array_0[1]
                == MsgV::Binary(wire::msg_bytes(inner)),
            (Err(a), Err(b)) => a == b,
            _ => false,
        },
{
}

/// The type of a value by its own shape: that of its first element for a
/// collection of one type, that of each for a tuple or an object.
pub proof fn law_shapes(v: ValueV)
    ensures
        v is String ==> shape_of(v) is String,
        v is Bool ==> shape_of(v) is Bool,
        v is Number ==> shape_of(v) is Number,
        v is Null || v is Unknown ==> shape_of(v) is DynamicPseudoType,
        v matches ValueV::List(xs) ==> shape_of(v) is List && *shape_of(v)->List_0 == (if xs.len()
            == 0 {
            TypeV::DynamicPseudoType
        } else {
            shape_of(xs[0])
        }),
        v matches ValueV::SetOf(xs) ==> shape_of(v) is SetOf && *shape_of(v)->SetOf_0 == (
        if xs.len() == 0 {
            TypeV::DynamicPseudoType
        } else {
            shape_of(xs[0])
        }),
        v matches ValueV::MapOf(m) ==> shape_of(v) is MapOf && *shape_of(v)->MapOf_0 == (
        if m.len() == 0 {
            TypeV::DynamicPseudoType
        } else {
            shape_of(m[0].1)
        }),
        v matches ValueV::Tuple(xs) ==> shape_of(v) is Tuple && shape_of(v)->Tuple_0.len()
            == xs.len() && forall|i: int|
            0 <= i < xs.len() ==> #[trigger] shape_of(v)->Tuple_0[i] == shape_of(xs[i]),
        v matches ValueV::Object(m) ==> shape_of(v) is Object && shape_of(v)->Object_0.len()
            == m.len() && forall|i: int|
            0 <= i < m.len() ==> #[trigger] shape_of(v)->Object_0[i] == (
                m[i].0,
                shape_of(m[i].1),
            ),
{
}

proof fn lemma_list_reads(size: nat, xs: Seq<MsgV>, e: TypeV, n: int)
    requires
        0 <= n <= xs.len(),
    ensures
        gather::gathered(
            list_of_msgs(size, xs.subrange(0, n), e),
            n,
            |i: int| value_of_msg(size, xs[i], e),
        ),
    decreases n,
{
    if n > 0 {
        lemma_list_reads(size, xs, e, n - 1);
        let b = xs.subrange(0, n);
        let a = xs.subrange(0, n - 1);
        assert(b.subrange(0, n - 1) =~= a);
        gather::lemma_gathered_push(
            list_of_msgs(size, a, e),
            list_of_msgs(size, b, e),
            n - 1,
            |i: int| value_of_msg(size, xs[i], e),
        );
    }
}

/// A list or set is decoded from an array element by element; the first
/// element that stands for nothing is the error of the whole.
pub proof fn law_lists_are_decoded_by_element(size: nat, xs: Seq<MsgV>, e: TypeV)
    ensures
        match value_of_msg(size, MsgV::Array(xs), TypeV::List(Box::new(e))) {
            Ok(v) => v is List && gather::gathered(
                Ok(v->List_0),
                xs.len() as int,
                |i: int| value_of_msg(size, xs[i], e),
            ),
            Err(err) => gather::gathered(
                Err::<Seq<ValueV>, CtyErrorV>(err),
                xs.len() as int,
                |i: int| value_of_msg(size, xs[i], e),
            ),
        },
        match value_of_msg(size, MsgV::Array(xs), TypeV::SetOf(Box::new(e))) {
            Ok(v) => v is SetOf && gather::gathered(
                Ok(v->SetOf_0),
                xs.len() as int,
                |i: int| value_of_msg(size, xs[i], e),
            ),
            Err(err) => gather::gathered(
                Err::<Seq<ValueV>, CtyErrorV>(err),
                xs.len() as int,
                |i: int| value_of_msg(size, xs[i], e),
            ),
        },
{
    lemma_list_reads(size, xs, e, xs.len() as int);
    assert(xs.subrange(0, xs.len() as int) =~= xs);
}

proof fn lemma_tuple_reads(size: nat, xs: Seq<MsgV>, ts: Seq<TypeV>, n: int)
    requires
        0 <= n <= xs.len(),
    ensures
        gather::gathered(
            tuple_of_msgs(size, xs.subrange(0, n), ts),
            n,
            |i: int| value_of_msg(size, xs[i], ts[i]),
        ),
    decreases n,
{
    if n > 0 {
        lemma_tuple_reads(size, xs, ts, n - 1);
        let b = xs.subrange(0, n);
        let a = xs.subrange(0, n - 1);
        assert(b.subrange(0, n - 1) =~= a);
        gather::lemma_gathered_push(
            tuple_of_msgs(size, a, ts),
            tuple_of_msgs(size, b, ts),
            n - 1,
            |i: int| value_of_msg(size, xs[i], ts[i]),
        );
    }
}

/// A tuple is decoded from an array of its own length and no other, each
/// element under the type at its own place.
pub proof fn law_tuples_are_decoded_by_place(size: nat, xs: Seq<MsgV>, ts: Seq<TypeV>)
    ensures
        xs.len() != ts.len() ==> value_of_msg(size, MsgV::Array(xs), TypeV::Tuple(ts)) is Err,
        xs.len() == ts.len() ==> match value_of_msg(size, MsgV::Array(xs), TypeV::Tuple(ts)) {
            Ok(v) => v is Tuple && gather::gathered(
                Ok(v->Tuple_0),
                xs.len() as int,
                |i: int| value_of_msg(size, xs[i], ts[i]),
            ),
            Err(err) => gather::gathered(
                Err::<Seq<ValueV>, CtyErrorV>(err),
                xs.len() as int,
                |i: int| value_of_msg(size, xs[i], ts[i]),
            ),
        },
{
    lemma_tuple_reads(size, xs, ts, xs.len() as int);
    assert(xs.subrange(0, xs.len() as int) =~= xs);
}

/// A pair can be read: its key is a string, and its value stands for
/// something under the type that goes with the key, if any does.
pub open spec fn readable(
    size: nat,
    p: (MsgV, MsgV),
    type_under: spec_fn(Seq<char>) -> Option<TypeV>,
) -> bool {
    p.0 is String && (type_under(p.0->String_0) matches Some(t) ==> value_of_msg(size, p.1, t) is Ok)
}

/// No pair behind `i` has its key.
pub open spec fn last_of_key(ps: Seq<(MsgV, MsgV)>, i: int) -> bool {
    0 <= i < ps.len() && forall|j: int| i < j < ps.len() ==> (#[trigger] ps[j]).0 != ps[i].0
}

/// Pairs read by key, where a type goes with the key: the last pair of a key
/// counts, keys without a type are left out. The first pair that cannot be
/// read is the error of the whole.
pub open spec fn read_by_key(
    size: nat,
    ps: Seq<(MsgV, MsgV)>,
    type_under: spec_fn(Seq<char>) -> Option<TypeV>,
    r: Result<Seq<(Seq<char>, ValueV)>, CtyErrorV>,
) -> bool {
    match r {
        Ok(o) => {
            &&& ordmap::sorted(o)
            &&& forall|i: int| 0 <= i < ps.len() ==> readable(size, #[trigger] ps[i], type_under)
            &&& forall|i: int| #[trigger]
                last_of_key(ps, i) ==> ordmap::lookup(o, ps[i].0->String_0) == match type_under(
                    ps[i].0->String_0,
                ) {
                    Some(t) => Some(value_of_msg(size, ps[i].1, t)->Ok_0),
                    None => None,
                }
            &&& forall|k: Seq<char>|
                (forall|i: int| 0 <= i < ps.len() ==> (#[trigger] ps[i]).0 != MsgV::String(k)) ==> (
                #[trigger] ordmap::lookup(o, k)) is None
        },
        Err(err) => exists|i: int|
            0 <= i < ps.len() && !readable(size, #[trigger] ps[i], type_under) && (ps[i].0 is String
                ==> value_of_msg(size, ps[i].1, type_under(ps[i].0->String_0)->Some_0) == Err::<
                ValueV,
                CtyErrorV,
            >(err)) && (!(ps[i].0 is String) ==> err is Decode) && forall|j: int|
                0 <= j < i ==> readable(size, #[trigger] ps[j], type_under),
    }
}

proof fn lemma_read_push(
    size: nat,
    ps: Seq<(MsgV, MsgV)>,
    type_under: spec_fn(Seq<char>) -> Option<TypeV>,
    prev: Result<Seq<(Seq<char>, ValueV)>, CtyErrorV>,
    r: Result<Seq<(Seq<char>, ValueV)>, CtyErrorV>,
)
    requires
        ps.len() > 0,
        read_by_key(size, ps.subrange(0, ps.len() - 1), type_under, prev),
        match prev {
            Err(e) => r == prev,
            Ok(o) => {
                let p = ps[ps.len() - 1];
                if p.0 is String {
                    match type_under(p.0->String_0) {
                        None => r == prev,
                        Some(t) => match value_of_msg(size, p.1, t) {
                            Ok(v) => r == Ok::<Seq<(Seq<char>, ValueV)>, CtyErrorV>(
                                ordmap::put(o, p.0->String_0, v),
                            ),
                            Err(e) => r == Err::<Seq<(Seq<char>, ValueV)>, CtyErrorV>(e),
                        },
                    }
                } else {
                    r matches Err(e) && e is Decode
                }
            },
        },
        prev matches Ok(o) ==> forall|k: Seq<char>|
            type_under(k) is None ==> (#[trigger] ordmap::lookup(o, k)) is None,
    ensures
        read_by_key(size, ps, type_under, r),
        r matches Ok(o) ==> forall|k: Seq<char>|
            type_under(k) is None ==> (#[trigger] ordmap::lookup(o, k)) is None,
{
    let front = ps.subrange(0, ps.len() - 1);
    let p = ps[ps.len() - 1];
    assert forall|i: int| 0 <= i < front.len() implies #[trigger] front[i] == ps[i] by {}
    match prev {
        Err(err) => {
            let i = choose|i: int|
                0 <= i < front.len() && !readable(size, #[trigger] front[i], type_under) && (
                front[i].0 is String ==> value_of_msg(
                    size,
                    front[i].1,
                    type_under(front[i].0->String_0)->Some_0,
                ) == Err::<ValueV, CtyErrorV>(err)) && (!(front[i].0 is String) ==> err is Decode)
                    && forall|j: int|
                    0 <= j < i ==> readable(size, #[trigger] front[j], type_under);
            assert(!readable(size, ps[i], type_under));
            assert forall|j: int| 0 <= j < i implies readable(size, #[trigger] ps[j], type_under) by {
                assert(readable(size, front[j], type_under));
            }
        },
        Ok(o) => {
            assert forall|j: int| 0 <= j < front.len() implies readable(
                size,
                #[trigger] ps[j],
                type_under,
            ) by {
                assert(readable(size, front[j], type_under));
            }
            if let Ok(q) = r {
                assert(readable(size, p, type_under));
                let k = p.0->String_0;
                if type_under(k) is Some {
                    let v = value_of_msg(size, p.1, type_under(k)->Some_0)->Ok_0;
                    ordmap::lemma_put_sorted(o, k, v);
                    assert forall|k2: Seq<char>| #[trigger]
                        ordmap::lookup(q, k2) == if k2 == k {
                            Some(v)
                        } else {
                            ordmap::lookup(o, k2)
                        } by {
                        ordmap::lemma_put_lookup(o, k, v, k2);
                    }
                }
                assert forall|i: int| #[trigger] last_of_key(ps, i) implies ordmap::lookup(
                    q,
                    ps[i].0->String_0,
                ) == match type_under(ps[i].0->String_0) {
                    Some(t) => Some(value_of_msg(size, ps[i].1, t)->Ok_0),
                    None => None,
                } by {
                    assert(readable(size, ps[i], type_under));
                    if i < front.len() {
                        assert(ps[ps.len() - 1].0 != ps[i].0);
                        assert(last_of_key(front, i)) by {
                            assert forall|j: int| i < j < front.len() implies (
                            #[trigger] front[j]).0 != front[i].0 by {
                                assert(ps[j].0 != ps[i].0);
                            }
                        }
                        assert(ps[i].0->String_0 != k);
                    }
                }
                assert forall|k2: Seq<char>|
                    (forall|i: int| 0 <= i < ps.len() ==> (#[trigger] ps[i]).0 != MsgV::String(k2)) implies (
                #[trigger] ordmap::lookup(q, k2)) is None by {
                    assert(p.0 != MsgV::String(k2));
                    assert forall|i: int| 0 <= i < front.len() implies (#[trigger] front[i]).0
                        != MsgV::String(k2) by {
                        assert(ps[i].0 != MsgV::String(k2));
                    }
                    assert(ordmap::lookup(o, k2) is None);
                }
            } else {
                assert(!readable(size, p, type_under));
            }
        },
    }
}

proof fn lemma_map_reads(size: nat, ps: Seq<(MsgV, MsgV)>, e: TypeV)
    ensures
        read_by_key(size, ps, |k: Seq<char>| Some(e), map_of_pairs(size, ps, e)),
    decreases ps.len(),
{
    if ps.len() > 0 {
        let front = ps.subrange(0, ps.len() - 1);
        lemma_map_reads(size, front, e);
        lemma_read_push(
            size,
            ps,
            |k: Seq<char>| Some(e),
            map_of_pairs(size, front, e),
            map_of_pairs(size, ps, e),
        );
    }
}

/// A map is decoded from pairs with string keys: under each key stands what
/// the last pair of that key stands for, and under no other key anything.
pub proof fn law_maps_are_decoded_by_key(size: nat, ps: Seq<(MsgV, MsgV)>, e: TypeV)
    ensures
        match value_of_msg(size, MsgV::Pairs(ps), TypeV::MapOf(Box::new(e))) {
            Ok(v) => v is MapOf && read_by_key(
                size,
                ps,
                |k: Seq<char>| Some(e),
                Ok(v->MapOf_0),
            ),
            Err(err) => read_by_key(size, ps, |k: Seq<char>| Some(e), Err(err)),
        },
{
    lemma_map_reads(size, ps, e);
}

proof fn lemma_object_reads(size: nat, ps: Seq<(MsgV, MsgV)>, attrs: Seq<(Seq<char>, TypeV)>)
    ensures
        read_by_key(
            size,
            ps,
            |k: Seq<char>| ordmap::lookup(attrs, k),
            object_of_pairs(size, ps, attrs),
        ),
        object_of_pairs(size, ps, attrs) matches Ok(o) ==> forall|k: Seq<char>|
            ordmap::lookup(attrs, k) is None ==> (#[trigger] ordmap::lookup(o, k)) is None,
    decreases ps.len(),
{
    if ps.len() > 0 {
        let front = ps.subrange(0, ps.len() - 1);
        lemma_object_reads(size, front, attrs);
        lemma_read_push(
            size,
            ps,
            |k: Seq<char>| ordmap::lookup(attrs, k),
            object_of_pairs(size, front, attrs),
            object_of_pairs(size, ps, attrs),
        );
    }
}

/// An object is decoded from pairs with string keys: under each attribute of
/// its type stands what the last pair of that name stands for under the
/// attribute's own type; pairs of other names are left out, and attributes
/// without a pair are not there.
pub proof fn law_objects_are_decoded_by_attribute(
    size: nat,
    ps: Seq<(MsgV, MsgV)>,
    attrs: Seq<(Seq<char>, TypeV)>,
)
    ensures
        match value_of_msg(size, MsgV::Pairs(ps), TypeV::Object(attrs)) {
            Ok(v) => v is Object && read_by_key(
                size,
                ps,
                |k: Seq<char>| ordmap::lookup(attrs, k),
                Ok(v->Object_0),
            ),
            Err(err) => read_by_key(
                size,
                ps,
                |k: Seq<char>| ordmap::lookup(attrs, k),
                Err(err),
            ),
        },
{
    lemma_object_reads(size, ps, attrs);
}

/// A message of another shape than its type asks for is refused.
pub proof fn law_wrong_messages_are_refused(size: nat, m: MsgV, ty: TypeV)
    requires
        !(m is Nil),
        !(m is Ext && m->Ext_0 == 0),
    ensures
        ty is String && !(m is String) ==> value_of_msg(size, m, ty) is Err,
        ty is Bool && !(m is Boolean) ==> value_of_msg(size, m, ty) is Err,
        ty is Number && !(m is Integer) && !(m is F64) && !(m is F32) ==> value_of_msg(size, m, ty) is Err,
        (ty is List || ty is SetOf || ty is Tuple || ty is DynamicPseudoType) && !(m is Array)
            ==> value_of_msg(size, m, ty) is Err,
        (ty is MapOf || ty is Object) && !(m is Pairs) ==> value_of_msg(size, m, ty) is Err,
{
}

/// A dynamic value is unwrapped by the type that it carries: what its bytes
/// hold, under that type.
pub proof fn law_dynamic_is_read_by_its_type(size: nat, tb: Seq<u8>, vb: Seq<u8>, t: TypeV, inner: MsgV)
    requires
        vb.len() < size,
        json::json_parsed(tb) is Ok,
        types::type_of_json(json::json_parsed(tb)->Ok_0) == Ok::<TypeV, CtyErrorV>(t),
        wire::msg_read(vb) == Ok::<MsgV, Seq<char>>(inner),
    ensures
        value_of_msg(
            size,
            MsgV::Array(seq![MsgV::Binary(tb), MsgV::Binary(vb)]),
            TypeV::DynamicPseudoType,
        ) == value_of_msg(vb.len(), inner, t),
{
    let xs = seq![MsgV::Binary(tb), MsgV::Binary(vb)];
    assert(xs[0] == MsgV::Binary(tb) && xs[1] == MsgV::Binary(vb));
}

/// Bytes stand for what the message in them stands for; bytes that are no
/// message are refused.
pub proof fn law_bytes_stand_for_their_message(bytes: Seq<u8>, ty: TypeV)
    ensures
        wire::msg_read(bytes) matches Ok(m) ==> value_of_bytes(bytes, ty) == value_of_msg(
            bytes.len(),
            m,
            ty,
        ),
        wire::msg_read(bytes) matches Err(e) ==> value_of_bytes(bytes, ty) == Err::<
            ValueV,
            CtyErrorV,
        >(CtyErrorV::Decode(e)),
{
}

/// A dynamic value that is not wrapped as it should be is refused: it is a
/// pair, its type is bytes that are the JSON of a type, and its value is bytes
/// that are a message.
pub proof fn law_broken_wrappers_are_refused(size: nat, xs: Seq<MsgV>)
    requires
        value_of_msg(size, MsgV::Array(xs), TypeV::DynamicPseudoType) is Ok,
    ensures
        xs.len() == 2,
        wire::slice_of(xs[0]) is Some && wire::slice_of(xs[1]) is Some,
        json::json_parsed(wire::slice_of(xs[0])->Some_0) is Ok,
        types::type_of_json(json::json_parsed(wire::slice_of(xs[0])->Some_0)->Ok_0) is Ok,
        wire::msg_read(wire::slice_of(xs[1])->Some_0) is Ok,
{
}

// ── Facts about decoding ───────────────────────────────────────────

/// More room is room enough.
proof fn lemma_more_room(m: MsgV, a: nat, b: nat)
    requires
        a <= b,
        wire::slices_below(m, a),
    ensures
        wire::slices_below(m, b),
    decreases m,
{
    match m {
        MsgV::Array(xs) => {
            assert forall|i: int| #![trigger xs[i]] 0 <= i < xs.len() implies wire::slices_below(
                xs[i],
                b,
            ) by {
                lemma_more_room(xs[i], a, b);
            }
        },
        MsgV::Pairs(ps) => {
            assert forall|i: int| #![trigger ps[i]] 0 <= i < ps.len() implies wire::slices_below(
                ps[i].0,
                b,
            ) && wire::slices_below(ps[i].1, b) by {
                lemma_more_room(ps[i].0, a, b);
                lemma_more_room(ps[i].1, a, b);
            }
        },
        _ => {},
    }
}

/// Some length is above that of every string and binary in a message.
proof fn lemma_some_size(m: MsgV) -> (n: nat)
    ensures
        wire::slices_below(m, n),
    decreases m,
{
    match m {
        MsgV::Array(xs) => {
            let n = lemma_some_size_of_all(xs);
            n
        },
        MsgV::Pairs(ps) => {
            let n = lemma_some_size_of_pairs(ps);
            n
        },
        _ => match wire::slice_of(m) {
            Some(b) => b.len() + 1,
            None => 0,
        },
    }
}

proof fn lemma_some_size_of_all(xs: Seq<MsgV>) -> (n: nat)
    ensures
        forall|i: int| #![trigger xs[i]] 0 <= i < xs.len() ==> wire::slices_below(xs[i], n),
    decreases xs,
{
    if xs.len() == 0 {
        0
    } else {
        let rest = xs.subrange(0, xs.len() - 1);
        let a = lemma_some_size_of_all(rest);
        let b = lemma_some_size(xs[xs.len() - 1]);
        let n = a + b;
        assert forall|i: int| #![trigger xs[i]] 0 <= i < xs.len() implies wire::slices_below(
            xs[i],
            n,
        ) by {
            if i < rest.len() {
                assert(rest[i] == xs[i]);
                lemma_more_room(xs[i], a, n);
            } else {
                lemma_more_room(xs[i], b, n);
            }
        }
        n
    }
}

proof fn lemma_some_size_of_pairs(ps: Seq<(MsgV, MsgV)>) -> (n: nat)
    ensures
        forall|i: int|
            #![trigger ps[i]]
            0 <= i < ps.len() ==> wire::slices_below(ps[i].0, n) && wire::slices_below(ps[i].1, n),
    decreases ps,
{
    if ps.len() == 0 {
        0
    } else {
        let rest = ps.subrange(0, ps.len() - 1);
        let last = ps[ps.len() - 1];
        let a = lemma_some_size_of_pairs(rest);
        let b = lemma_some_size(last.0);
        let c = lemma_some_size(last.1);
        let n = a + b + c;
        assert forall|i: int| #![trigger ps[i]] 0 <= i < ps.len() implies wire::slices_below(
            ps[i].0,
            n,
        ) && wire::slices_below(ps[i].1, n) by {
            if i < rest.len() {
                assert(rest[i] == ps[i]);
                lemma_more_room(ps[i].0, a, n);
                lemma_more_room(ps[i].1, a, n);
            } else {
                lemma_more_room(ps[i].0, b, n);
                lemma_more_room(ps[i].1, c, n);
            }
        }
        n
    }
}

/// What a message stands for does not depend on how many bytes it was read
/// from.
proof fn lemma_any_size(a: nat, b: nat, m: MsgV, ty: TypeV)
    requires
        wire::slices_below(m, a),
        wire::slices_below(m, b),
    ensures
        value_of_msg(a, m, ty) == value_of_msg(b, m, ty),
    decreases m,
{
    match m {
        MsgV::Array(xs) => match ty {
            TypeV::List(e) => lemma_any_size_list(a, b, xs, *e),
            TypeV::SetOf(e) => lemma_any_size_list(a, b, xs, *e),
            TypeV::Tuple(ts) => lemma_any_size_tuple(a, b, xs, ts),
            _ => {
                if xs.len() == 2 {
                    assert(wire::slices_below(xs[1], a) && wire::slices_below(xs[1], b));
                }
            },
        },
        MsgV::Pairs(ps) => match ty {
            TypeV::MapOf(e) => lemma_any_size_map(a, b, ps, *e),
            TypeV::Object(attrs) => lemma_any_size_object(a, b, ps, attrs),
            _ => {},
        },
        _ => {},
    }
}

proof fn lemma_any_size_list(a: nat, b: nat, xs: Seq<MsgV>, e: TypeV)
    requires
        forall|i: int|
            #![trigger xs[i]]
            0 <= i < xs.len() ==> wire::slices_below(xs[i], a) && wire::slices_below(xs[i], b),
    ensures
        list_of_msgs(a, xs, e) == list_of_msgs(b, xs, e),
    decreases xs,
{
    if xs.len() > 0 {
        let rest = xs.subrange(0, xs.len() - 1);
        assert forall|i: int| #![trigger rest[i]] 0 <= i < rest.len() implies wire::slices_below(
            rest[i],
            a,
        ) && wire::slices_below(rest[i], b) by {
            assert(rest[i] == xs[i]);
        }
        lemma_any_size_list(a, b, rest, e);
        lemma_any_size(a, b, xs[xs.len() - 1], e);
    }
}

proof fn lemma_any_size_tuple(a: nat, b: nat, xs: Seq<MsgV>, ts: Seq<TypeV>)
    requires
        forall|i: int|
            #![trigger xs[i]]
            0 <= i < xs.len() ==> wire::slices_below(xs[i], a) && wire::slices_below(xs[i], b),
    ensures
        tuple_of_msgs(a, xs, ts) == tuple_of_msgs(b, xs, ts),
    decreases xs,
{
    if xs.len() > 0 {
        let rest = xs.subrange(0, xs.len() - 1);
        assert forall|i: int| #![trigger rest[i]] 0 <= i < rest.len() implies wire::slices_below(
            rest[i],
            a,
        ) && wire::slices_below(rest[i], b) by {
            assert(rest[i] == xs[i]);
        }
        lemma_any_size_tuple(a, b, rest, ts);
        lemma_any_size(a, b, xs[xs.len() - 1], ts[xs.len() - 1]);
    }
}

proof fn lemma_any_size_map(a: nat, b: nat, ps: Seq<(MsgV, MsgV)>, e: TypeV)
    requires
        forall|i: int|
            #![trigger ps[i]]
            0 <= i < ps.len() ==> wire::slices_below(ps[i].1, a) && wire::slices_below(ps[i].1, b),
    ensures
        map_of_pairs(a, ps, e) == map_of_pairs(b, ps, e),
    decreases ps,
{
    if ps.len() > 0 {
        let rest = ps.subrange(0, ps.len() - 1);
        assert forall|i: int| #![trigger rest[i]] 0 <= i < rest.len() implies wire::slices_below(
            rest[i].1,
            a,
        ) && wire::slices_below(rest[i].1, b) by {
            assert(rest[i] == ps[i]);
        }
        lemma_any_size_map(a, b, rest, e);
        lemma_any_size(a, b, ps[ps.len() - 1].1, e);
    }
}

proof fn lemma_any_size_object(a: nat, b: nat, ps: Seq<(MsgV, MsgV)>, attrs: Seq<(Seq<char>, TypeV)>)
    requires
        forall|i: int|
            #![trigger ps[i]]
            0 <= i < ps.len() ==> wire::slices_below(ps[i].1, a) && wire::slices_below(ps[i].1, b),
    ensures
        object_of_pairs(a, ps, attrs) == object_of_pairs(b, ps, attrs),
    decreases ps,
{
    if ps.len() > 0 {
        let rest = ps.subrange(0, ps.len() - 1);
        assert forall|i: int| #![trigger rest[i]] 0 <= i < rest.len() implies wire::slices_below(
            rest[i].1,
            a,
        ) && wire::slices_below(rest[i].1, b) by {
            assert(rest[i] == ps[i]);
        }
        lemma_any_size_object(a, b, rest, attrs);
        match ps[ps.len() - 1].0 {
            MsgV::String(k) => match ordmap::lookup(attrs, k) {
                Some(t) => lemma_any_size(a, b, ps[ps.len() - 1].1, t),
                None => {},
            },
            _ => {},
        }
    }
}

proof fn lemma_msgs_error(size: nat, xs: Seq<MsgV>, e: TypeV, n: int)
    requires
        0 <= n <= xs.len(),
        list_of_msgs(size, xs.subrange(0, n), e) is Err,
    ensures
        list_of_msgs(size, xs, e) == list_of_msgs(size, xs.subrange(0, n), e),
    decreases xs.len() - n,
{
    if n == xs.len() {
        assert(xs.subrange(0, n) =~= xs);
    } else {
        let b = xs.subrange(0, n + 1);
        assert(b.subrange(0, n) =~= xs.subrange(0, n));
        lemma_msgs_error(size, xs, e, n + 1);
    }
}

proof fn lemma_msg_tuple_error(size: nat, xs: Seq<MsgV>, ts: Seq<TypeV>, n: int)
    requires
        0 <= n <= xs.len(),
        tuple_of_msgs(size, xs.subrange(0, n), ts) is Err,
    ensures
        tuple_of_msgs(size, xs, ts) == tuple_of_msgs(size, xs.subrange(0, n), ts),
    decreases xs.len() - n,
{
    if n == xs.len() {
        assert(xs.subrange(0, n) =~= xs);
    } else {
        let b = xs.subrange(0, n + 1);
        assert(b.subrange(0, n) =~= xs.subrange(0, n));
        lemma_msg_tuple_error(size, xs, ts, n + 1);
    }
}

proof fn lemma_map_pairs_error(size: nat, ps: Seq<(MsgV, MsgV)>, e: TypeV, n: int)
    requires
        0 <= n <= ps.len(),
        map_of_pairs(size, ps.subrange(0, n), e) is Err,
    ensures
        map_of_pairs(size, ps, e) == map_of_pairs(size, ps.subrange(0, n), e),
    decreases ps.len() - n,
{
    if n == ps.len() {
        assert(ps.subrange(0, n) =~= ps);
    } else {
        let b = ps.subrange(0, n + 1);
        assert(b.subrange(0, n) =~= ps.subrange(0, n));
        lemma_map_pairs_error(size, ps, e, n + 1);
    }
}

proof fn lemma_object_pairs_error(
    size: nat,
    ps: Seq<(MsgV, MsgV)>,
    attrs: Seq<(Seq<char>, TypeV)>,
    n: int,
)
    requires
        0 <= n <= ps.len(),
        object_of_pairs(size, ps.subrange(0, n), attrs) is Err,
    ensures
        object_of_pairs(size, ps, attrs) == object_of_pairs(size, ps.subrange(0, n), attrs),
    decreases ps.len() - n,
{
    if n == ps.len() {
        assert(ps.subrange(0, n) =~= ps);
    } else {
        let b = ps.subrange(0, n + 1);
        assert(b.subrange(0, n) =~= ps.subrange(0, n));
        lemma_object_pairs_error(size, ps, attrs, n + 1);
    }
}

} // verus!
