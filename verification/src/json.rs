//! JSON values.
//!
//! An object keeps its members in key order, as `serde_json` does. A number
//! is an integer or the bit pattern of a finite double.
use vstd::prelude::*;
use vstd::string::*;
use crate::ordmap;
use crate::ordmap::StrMap;
use crate::text;
use crate::text::same;

verus! {

/// A JSON number.
#[derive(Clone, Copy, Debug, PartialEq, Eq, Structural)]
pub enum Number {
    /// Zero or above.
    PosInt(u64),
    /// Below zero.
    NegInt(i64),
    /// The IEEE 754 bits of a finite double.
    Float(u64),
}

/// A JSON value.
#[derive(Debug)]
pub enum Json {
    Null,
    Bool(bool),
    Number(Number),
    String(String),
    Array(Vec<Json>),
    Object(StrMap<Json>),
}

/// What a [`Json`] holds.
#[verifier::ext_equal]
pub enum JsonV {
    Null,
    Bool(bool),
    Number(Number),
    String(Seq<char>),
    Array(Seq<JsonV>),
    Object(Seq<(Seq<char>, JsonV)>),
}

impl Json {
    pub open spec fn model(&self) -> JsonV
        decreases self,
    {
        match self {
            Json::Null => JsonV::Null,
            Json::Bool(b) => JsonV::Bool(*b),
            Json::Number(n) => JsonV::Number(*n),
            Json::String(s) => JsonV::String(s@),
            Json::Array(xs) => JsonV::Array(
                Seq::new(
                    xs@.len(),
                    |i: int|
                        if 0 <= i < xs@.len() {
                            xs@[i].model()
                        } else {
                            JsonV::Null
                        },
                ),
            ),
            Json::Object(m) => JsonV::Object(
                Seq::new(
                    m.entries@.len(),
                    |i: int|
                        if 0 <= i < m.entries@.len() {
                            (m.entries@[i].0@, m.entries@[i].1.model())
                        } else {
                            (Seq::empty(), JsonV::Null)
                        },
                ),
            ),
        }
    }
}

impl View for Json {
    type V = JsonV;

    open spec fn view(&self) -> JsonV {
        self.model()
    }
}

/// The values of a list.
pub open spec fn list_view(xs: Seq<Json>) -> Seq<JsonV> {
    Seq::new(xs.len(), |i: int| xs[i]@)
}

/// The members of an object.
pub open spec fn object_view(m: Seq<(Seq<char>, Json)>) -> Seq<(Seq<char>, JsonV)> {
    ordmap::map_vals(m, |v: Json| v@)
}

/// A list is its values.
pub proof fn lemma_array_view(xs: Vec<Json>)
    ensures
        Json::Array(xs)@ == JsonV::Array(list_view(xs@)),
{
    assert(Json::Array(xs)@->Array_0 =~= list_view(xs@));
}

/// An object is its members.
pub proof fn lemma_object_view(m: StrMap<Json>)
    ensures
        Json::Object(m)@ == JsonV::Object(object_view(m@)),
{
    assert(Json::Object(m)@->Object_0 =~= object_view(m@));
}

/// Two zeros of different sign are one number.
pub open spec fn number_same(a: Number, b: Number) -> bool {
    match (a, b) {
        (Number::Float(x), Number::Float(y)) => x == y || (is_zero(x) && is_zero(y)),
        _ => a == b,
    }
}

/// The bits of a double that is zero.
pub open spec fn is_zero(bits: u64) -> bool {
    bits == 0 || bits == 0x8000_0000_0000_0000
}

/// Equality of numbers; see [`number_same`].
pub fn numbers_equal(a: Number, b: Number) -> (r: bool)
    ensures
        r == number_same(a, b),
{
    match (a, b) {
        (Number::Float(p), Number::Float(q)) => p == q || ((p == 0 || p == 0x8000_0000_0000_0000) && (q
            == 0 || q == 0x8000_0000_0000_0000)),
        _ => a == b,
    }
}

/// Equality of JSON values: the same shape, with numbers compared as numbers.
pub open spec fn json_same(a: JsonV, b: JsonV) -> bool
    decreases a,
{
    match (a, b) {
        (JsonV::Null, JsonV::Null) => true,
        (JsonV::Bool(x), JsonV::Bool(y)) => x == y,
        (JsonV::Number(x), JsonV::Number(y)) => number_same(x, y),
        (JsonV::String(x), JsonV::String(y)) => x == y,
        (JsonV::Array(x), JsonV::Array(y)) => x.len() == y.len() && forall|i: int|
            #![trigger x[i]]
            0 <= i < x.len() ==> json_same(x[i], y[i]),
        (JsonV::Object(x), JsonV::Object(y)) => x.len() == y.len() && forall|i: int|
            #![trigger x[i]]
            0 <= i < x.len() ==> x[i].0 == y[i].0 && json_same(x[i].1, y[i].1),
        _ => false,
    }
}

/// Every value equals itself.
pub proof fn lemma_json_same_refl(a: JsonV)
    ensures
        json_same(a, a),
    decreases a,
{
    match a {
        JsonV::Array(x) => {
            assert forall|i: int| #![trigger x[i]] 0 <= i < x.len() implies json_same(x[i], x[i]) by {
                lemma_json_same_refl(x[i]);
            }
        },
        JsonV::Object(x) => {
            assert forall|i: int| #![trigger x[i]] 0 <= i < x.len() implies json_same(
                x[i].1,
                x[i].1,
            ) by {
                lemma_json_same_refl(x[i].1);
            }
        },
        _ => {},
    }
}

impl Json {
    /// Equality; see [`json_same`].
    #[verifier::loop_isolation(false)]
    pub fn same_as(&self, other: &Json) -> (r: bool)
        ensures
            r == json_same(self@, other@),
        decreases self,
    {
        match (self, other) {
            (Json::Null, Json::Null) => true,
            (Json::Bool(x), Json::Bool(y)) => *x == *y,
            (Json::Number(x), Json::Number(y)) => numbers_equal(*x, *y),
            (Json::String(x), Json::String(y)) => same(x.as_str(), y.as_str()),
            (Json::Array(x), Json::Array(y)) => {
                proof {
                    lemma_array_view(*x);
                    lemma_array_view(*y);
                }
                if x.len() != y.len() {
                    return false;
                }
                let mut i: usize = 0;
                while i < x.len()
                    invariant
                        i <= x@.len(),
                        x@.len() == y@.len(),
                        self == Json::Array(*x),
                        forall|j: int|
                            #![trigger list_view(x@)[j]]
                            0 <= j < i ==> json_same(list_view(x@)[j], list_view(y@)[j]),
                    decreases x.len() - i,
                {
                    proof {
                        assert(decreases_to!(*x => x@[i as int]));
                    }
                    if !x[i].same_as(&y[i]) {
                        proof {
                            assert(!json_same(list_view(x@)[i as int], list_view(y@)[i as int]));
                        }
                        return false;
                    }
                    i += 1;
                }
                true
            },
            (Json::Object(x), Json::Object(y)) => {
                proof {
                    lemma_object_view(*x);
                    lemma_object_view(*y);
                }
                if x.entries.len() != y.entries.len() {
                    return false;
                }
                let mut i: usize = 0;
                while i < x.entries.len()
                    invariant
                        i <= x.entries@.len(),
                        x.entries@.len() == y.entries@.len(),
                        self == Json::Object(*x),
                        forall|j: int|
                            #![trigger object_view(x@)[j]]
                            0 <= j < i ==> object_view(x@)[j].0 == object_view(y@)[j].0
                                && json_same(object_view(x@)[j].1, object_view(y@)[j].1),
                    decreases x.entries.len() - i,
                {
                    proof {
                        assert(decreases_to!(x.entries => x.entries@[i as int]));
                    }
                    if !same(x.entries[i].0.as_str(), y.entries[i].0.as_str())
                        || !x.entries[i].1.same_as(&y.entries[i].1) {
                        proof {
                            assert(object_view(x@)[i as int].0 == x.entries@[i as int].0@);
                            assert(object_view(y@)[i as int].0 == y.entries@[i as int].0@);
                        }
                        return false;
                    }
                    i += 1;
                }
                true
            },
            _ => false,
        }
    }
}

impl PartialEq for Json {
    fn eq(&self, other: &Self) -> (r: bool) {
        self.same_as(other)
    }
}

impl vstd::std_specs::cmp::PartialEqSpecImpl for Json {
    open spec fn obeys_eq_spec() -> bool {
        true
    }

    open spec fn eq_spec(&self, other: &Self) -> bool {
        json_same(self@, other@)
    }
}

impl Clone for Json {
    #[verifier::loop_isolation(false)]
    fn clone(&self) -> (r: Self)
        ensures
            r@ == self@,
        decreases self,
    {
        match self {
            Json::Null => Json::Null,
            Json::Bool(b) => Json::Bool(*b),
            Json::Number(n) => Json::Number(*n),
            Json::String(s) => Json::String(s.clone()),
            Json::Array(xs) => {
                let mut out: Vec<Json> = Vec::new();
                let mut i: usize = 0;
                while i < xs.len()
                    invariant
                        i <= xs@.len(),
                        out@.len() == i,
                        self == Json::Array(*xs),
                        forall|j: int| 0 <= j < i ==> (#[trigger] out@[j])@ == xs@[j]@,
                    decreases xs.len() - i,
                {
                    proof {
                        assert(decreases_to!(*xs => xs@[i as int]));
                    }
                    let x: Json = xs[i].clone();
                    out.push(x);
                    i += 1;
                }
                proof {
                    lemma_array_view(*xs);
                    lemma_array_view(out);
                    assert(list_view(out@) =~= list_view(xs@));
                }
                Json::Array(out)
            },
            Json::Object(m) => {
                let mut out: Vec<(String, Json)> = Vec::new();
                let mut i: usize = 0;
                while i < m.entries.len()
                    invariant
                        i <= m.entries@.len(),
                        out@.len() == i,
                        self == Json::Object(*m),
                        forall|j: int|
                            0 <= j < i ==> (#[trigger] out@[j]).0@ == m.entries@[j].0@ && out@[j].1@
                                == m.entries@[j].1@,
                    decreases m.entries.len() - i,
                {
                    proof {
                        assert(decreases_to!(m.entries => m.entries@[i as int]));
                    }
                    let x: Json = m.entries[i].1.clone();
                    out.push((m.entries[i].0.clone(), x));
                    i += 1;
                }
                let o = StrMap { entries: out };
                proof {
                    lemma_object_view(*m);
                    lemma_object_view(o);
                    assert(object_view(o@) =~= object_view(m@));
                }
                Json::Object(o)
            },
        }
    }
}

/// A copy of the members of an object.
pub fn clone_object(m: &StrMap<Json>) -> (r: StrMap<Json>)
    ensures
        object_view(r@) == object_view(m@),
{
    let mut out: Vec<(String, Json)> = Vec::new();
    let mut i: usize = 0;
    while i < m.entries.len()
        invariant
            i <= m.entries@.len(),
            out@.len() == i,
            forall|j: int|
                0 <= j < i ==> (#[trigger] out@[j]).0@ == m.entries@[j].0@ && out@[j].1@
                    == m.entries@[j].1@,
        decreases m.entries.len() - i,
    {
        let x: Json = m.entries[i].1.clone();
        out.push((m.entries[i].0.clone(), x));
        i += 1;
    }
    let o = StrMap { entries: out };
    proof {
        assert(object_view(o@) =~= object_view(m@));
    }
    o
}

// ── serde_json ─────────────────────────────────────────────────────

/// `serde_json::Value`, carried through the conversions below.
#[verifier::external_type_specification]
#[verifier::external_body]
pub struct ExValue(serde_json::Value);

/// The text that `serde_json` writes for a value (compact form).
pub uninterp spec fn json_text(v: JsonV) -> Seq<char>;

/// The text that `serde_json::to_string_pretty` writes for a value.
pub uninterp spec fn json_pretty(v: JsonV) -> Seq<char>;

/// The bytes that `serde_json::to_vec` writes for a value.
pub uninterp spec fn json_bytes(v: JsonV) -> Seq<u8>;

/// What `serde_json::from_slice` reads from bytes: a value, or the text of
/// its error.
pub uninterp spec fn json_parsed(bytes: Seq<u8>) -> Result<JsonV, Seq<char>>;

/// The outside number: an integer as it is, a double from its bits (taken
/// out of a msgpack float that holds them), `null` where it is not finite.
#[verifier::external_body]
fn number_value(n: &Number) -> serde_json::Value {
    match n {
        Number::PosInt(u) => serde_json::Value::from(*u),
        Number::NegInt(i) => serde_json::Value::from(*i),
        Number::Float(b) => {
            let cell = [&[0xcb][..], &b.to_be_bytes()[..]].concat();
            match rmpv::decode::read_value(&mut cell.as_slice()) {
                Ok(rmpv::Value::F64(x)) => serde_json::Value::from(x),
                _ => serde_json::Value::Null,
            }
        },
    }
}

/// The outside value with the same contents, part by part.
#[verifier::external_body]
pub(crate) fn outside_value(v: &Json) -> serde_json::Value {
    match v {
        Json::Null => serde_json::Value::Null,
        Json::Bool(b) => serde_json::Value::Bool(*b),
        Json::Number(n) => number_value(n),
        Json::String(s) => serde_json::Value::String(s.clone()),
        Json::Array(xs) => xs.iter().map(outside_value).collect(),
        Json::Object(m) => m.entries.iter().map(|e| (e.0.clone(), outside_value(&e.1))).collect(),
    }
}

/// The number of an outside value; the kinds are told apart by `as_u64`,
/// `as_i64` and `as_f64`.
#[verifier::external_body]
fn inside_number(v: &serde_json::Value) -> Number {
    match (v.as_u64(), v.as_i64()) {
        (Some(u), _) => Number::PosInt(u),
        (None, Some(i)) => Number::NegInt(i),
        (None, None) => Number::Float(v.as_f64().map_or(0, |x| x.to_bits())),
    }
}

/// The value with the same contents as an outside one, part by part.
#[verifier::external_body]
fn inside_value(v: serde_json::Value) -> Json {
    match v {
        serde_json::Value::Null => Json::Null,
        serde_json::Value::Bool(b) => Json::Bool(b),
        serde_json::Value::Number(_) => Json::Number(inside_number(&v)),
        serde_json::Value::String(s) => Json::String(s),
        serde_json::Value::Array(xs) => Json::Array(xs.into_iter().map(inside_value).collect()),
        serde_json::Value::Object(m) => Json::Object(
            StrMap { entries: m.into_iter().map(|(k, x)| (k, inside_value(x))).collect() }),
    }
}

/// `serde_json::Value::to_string`: the compact text.
#[verifier::external_body]
pub(crate) fn to_text(v: &Json) -> (r: String)
    ensures
        r@ == json_text(v@),
{
    outside_value(v).to_string()
}

/// `serde_json::to_string_pretty`: the indented text. Writing a `Value` to a
/// string has no way to fail.
#[verifier::external_body]
pub(crate) fn to_pretty_text(v: &Json) -> (r: String)
    ensures
        r@ == json_pretty(v@),
{
    serde_json::to_string_pretty(&outside_value(v)).unwrap_or_default()
}

/// `serde_json::to_vec`: the compact text as bytes. Writing a `Value` to a
/// vector has no way to fail, and `from_slice` reads back what was written
/// as long as the value has no double, its objects are in key order and it
/// nests at most 127 deep (the reader's limit).
#[verifier::external_body]
pub(crate) fn to_bytes(v: &Json) -> (r: Vec<u8>)
    ensures
        r@ == json_bytes(v@),
        rereadable(v@, 127) ==> reads_as(r@, v@),
{
    serde_json::to_vec(&outside_value(v)).unwrap_or_default()
}

/// `serde_json::from_slice::<serde_json::Value>`.
#[verifier::external_body]
pub(crate) fn from_bytes(bytes: &[u8]) -> (r: Result<Json, String>)
    ensures
        parsed_view(r) == json_parsed(bytes@),
{
    match serde_json::from_slice(bytes) {
        Ok(v) => Ok(inside_value(v)),
        Err(e) => Err(e.to_string()),
    }
}

/// Reading the bytes gives the value.
pub open spec fn reads_as(bytes: Seq<u8>, v: JsonV) -> bool {
    json_parsed(bytes) == Ok::<JsonV, Seq<char>>(v)
}

/// The result of reading, by what it holds.
pub open spec fn parsed_view(r: Result<Json, String>) -> Result<JsonV, Seq<char>> {
    match r {
        Ok(v) => Ok(v@),
        Err(e) => Err(e@),
    }
}

/// A value that reading gives back as it was written: integers in their
/// normal form, no double, objects in key order, at most `depth` nested
/// arrays and objects.
pub open spec fn rereadable(v: JsonV, depth: nat) -> bool
    decreases v,
{
    match v {
        JsonV::Number(Number::PosInt(_)) => true,
        JsonV::Number(Number::NegInt(i)) => i < 0,
        JsonV::Number(Number::Float(_)) => false,
        JsonV::Array(xs) => depth > 0 && forall|i: int|
            #![trigger xs[i]]
            0 <= i < xs.len() ==> rereadable(xs[i], (depth - 1) as nat),
        JsonV::Object(m) => depth > 0 && ordmap::sorted(m) && forall|i: int|
            #![trigger m[i]]
            0 <= i < m.len() ==> rereadable(m[i].1, (depth - 1) as nat),
        _ => true,
    }
}

// ── Reading and building ───────────────────────────────────────────

impl Json {
    /// Parse JSON text.
    pub fn parse(s: &str) -> (r: Result<Json, String>)
        ensures
            parsed_view(r) == json_parsed(s.spec_bytes()),
    {
        from_bytes(s.as_bytes())
    }

    /// Parse the bytes of JSON text.
    pub fn parse_bytes(bytes: &[u8]) -> (r: Result<Json, String>)
        ensures
            parsed_view(r) == json_parsed(bytes@),
    {
        from_bytes(bytes)
    }

    /// The compact JSON text.
    pub fn text(&self) -> (r: String)
        ensures
            r@ == json_text(self@),
    {
        to_text(self)
    }

    /// A string value.
    pub fn string(s: &str) -> (r: Json)
        ensures
            r@ == JsonV::String(s@),
    {
        Json::String(s.to_owned())
    }

    /// An integer.
    pub fn integer(n: i64) -> (r: Json)
        ensures
            r@ == JsonV::Number(int_number(n)),
    {
        if n < 0 {
            Json::Number(Number::NegInt(n))
        } else {
            Json::Number(Number::PosInt(n as u64))
        }
    }

    /// An object from its members; of two with one name the later one stays.
    pub fn object(members: Vec<(String, Json)>) -> (r: Json)
        ensures
            r@ == JsonV::Object(ordmap::collect(members_view(members@))),
    {
        let mut m: StrMap<Json> = StrMap::new();
        let mut rest = members;
        let mut todo: Vec<(String, Json)> = Vec::new();
        let ghost all = members@;
        proof {
            assert(object_view(m@) =~= Seq::empty());
        }
        while rest.len() > 0
            invariant
                rest@.len() + todo@.len() == all.len(),
                rest@ == all.take(rest@.len() as int),
                forall|j: int| 0 <= j < todo@.len() ==> todo@[j] == all[all.len() - 1 - j],
            decreases rest.len(),
        {
            match rest.pop() {
                Some(e) => todo.push(e),
                None => {},
            }
        }
        proof {
            assert(members_view(all).take(0) =~= Seq::empty());
            assert(object_view(m@) =~= ordmap::collect(members_view(all).take(0)));
        }
        while todo.len() > 0
            invariant
                todo@.len() <= all.len(),
                forall|j: int| 0 <= j < todo@.len() ==> todo@[j] == all[all.len() - 1 - j],
                object_view(m@) == ordmap::collect(
                    members_view(all).take(all.len() - todo@.len()),
                ),
            decreases todo.len(),
        {
            let ghost n = all.len() - todo@.len();
            let ghost before = m@;
            match todo.pop() {
                Some(e) => {
                    proof {
                        assert(e == all[n]);
                        ordmap::lemma_map_vals_put(before, |v: Json| v@, e.0@, e.1);
                        let a = members_view(all).take(n);
                        let b = members_view(all).take(n + 1);
                        assert(b.drop_last() =~= a);
                        assert(b.last() == (e.0@, e.1@));
                    }
                    m.insert(e.0, e.1);
                },
                None => {},
            }
        }
        proof {
            assert(members_view(all).take(all.len() as int) =~= members_view(all));
            lemma_object_view(m);
        }
        Json::Object(m)
    }

    /// The string, if this is one.
    pub fn as_str(&self) -> (r: Option<&str>)
        ensures
            match r {
                Some(s) => self@ == JsonV::String(s@),
                None => !(self@ is String),
            },
    {
        match self {
            Json::String(s) => Some(s.as_str()),
            _ => None,
        }
    }

    /// The member `key` of an object.
    pub fn get(&self, key: &str) -> (r: Option<&Json>)
        ensures
            opt_view(r) == member(self@, key@),
    {
        match self {
            Json::Object(m) => {
                proof {
                    lemma_object_view(*m);
                    ordmap::lemma_map_vals_lookup(m@, |v: Json| v@, key@);
                }
                m.get(key)
            },
            _ => None,
        }
    }

    /// The element `i` of an array.
    pub fn at(&self, i: usize) -> (r: Option<&Json>)
        ensures
            opt_view(r) == element(self@, i as int),
    {
        match self {
            Json::Array(xs) => {
                proof {
                    lemma_array_view(*xs);
                }
                if i < xs.len() {
                    Some(&xs[i])
                } else {
                    None
                }
            },
            _ => None,
        }
    }
}

/// The integer `n` as a number in its normal form.
pub open spec fn int_number(n: i64) -> Number {
    if n < 0 {
        Number::NegInt(n)
    } else {
        Number::PosInt(n as u64)
    }
}

/// Named values, by what they hold.
pub open spec fn members_view(m: Seq<(String, Json)>) -> Seq<(Seq<char>, JsonV)> {
    Seq::new(m.len(), |i: int| (m[i].0@, m[i].1@))
}

pub open spec fn opt_view(r: Option<&Json>) -> Option<JsonV> {
    match r {
        Some(v) => Some(v@),
        None => None,
    }
}

/// The member `key` of an object; nothing in any other value.
pub open spec fn member(v: JsonV, key: Seq<char>) -> Option<JsonV> {
    match v {
        JsonV::Object(m) => ordmap::lookup(m, key),
        _ => None,
    }
}

/// The element `i` of an array; nothing in any other value.
pub open spec fn element(v: JsonV, i: int) -> Option<JsonV> {
    match v {
        JsonV::Array(xs) => if 0 <= i < xs.len() {
            Some(xs[i])
        } else {
            None
        },
        _ => None,
    }
}

/// Two values are the same where they are of one type and hold the same:
/// arrays element by element, objects member by member.
pub proof fn law_same_by_part(a: JsonV, b: JsonV)
    ensures
        json_same(a, b) && a is Null ==> b is Null,
        forall|x: bool, y: bool|
            a == JsonV::Bool(x) && b == JsonV::Bool(y) ==> (json_same(a, b) <==> x == y),
        forall|x: Seq<char>, y: Seq<char>|
            a == JsonV::String(x) && b == JsonV::String(y) ==> (json_same(a, b) <==> x == y),
        a is Array && b is Array ==> (json_same(a, b) <==> a->Array_0.len() == b->Array_0.len()
            && forall|i: int|
            0 <= i < a->Array_0.len() ==> json_same(#[trigger] a->Array_0[i], b->Array_0[i])),
        a is Object && b is Object ==> (json_same(a, b) <==> a->Object_0.len() == b->Object_0.len()
            && forall|i: int|
            0 <= i < a->Object_0.len() ==> (#[trigger] a->Object_0[i]).0 == b->Object_0[i].0
                && json_same(a->Object_0[i].1, b->Object_0[i].1)),
        json_same(a, b) ==> (a is Null <==> b is Null) && (a is Bool <==> b is Bool) && (
        a is Number <==> b is Number) && (a is String <==> b is String) && (a is Array <==> b is Array)
            && (a is Object <==> b is Object),
{
}

/// Whole numbers are the same where they are equal, floats where their bits
/// are or both are zero.
pub proof fn law_same_numbers(a: Number, b: Number)
    ensures
        json_same(JsonV::Number(a), JsonV::Number(b)) <==> a == b || (a matches Number::Float(x)
            && b matches Number::Float(y) && (x == 0 || x == 0x8000_0000_0000_0000) && (y == 0 || y
            == 0x8000_0000_0000_0000)),
{
}

/// A member of an object is the value of the first entry of its name; an
/// element of an array is what stands at its place. Nothing else has members
/// or elements.
pub proof fn law_members_and_elements(v: JsonV, key: Seq<char>, i: int)
    ensures
        v matches JsonV::Object(m) ==> (0 <= i < m.len() && m[i].0 == key && (forall|j: int|
            0 <= j < i ==> (#[trigger] m[j]).0 != key) ==> member(v, key) == Some(m[i].1)),
        v matches JsonV::Object(m) ==> ((forall|j: int|
            0 <= j < m.len() ==> (#[trigger] m[j]).0 != key) ==> member(v, key) is None),
        !(v is Object) ==> member(v, key) is None,
        v matches JsonV::Array(xs) ==> (0 <= i < xs.len() ==> element(v, i) == Some(xs[i])),
        v matches JsonV::Array(xs) ==> (i < 0 || i >= xs.len() ==> element(v, i) is None),
        !(v is Array) ==> element(v, i) is None,
{
    if let JsonV::Object(m) = v {
        if 0 <= i < m.len() && m[i].0 == key && (forall|j: int|
            0 <= j < i ==> (#[trigger] m[j]).0 != key) {
            ordmap::lemma_lookup_first(m, key, i);
        }
        if forall|j: int| 0 <= j < m.len() ==> (#[trigger] m[j]).0 != key {
            ordmap::lemma_lookup_none(m, key);
        }
    }
}

} // verus!
