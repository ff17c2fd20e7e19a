//! The values.
//!
//! A value is null, unknown or concrete. It carries no type: the type that
//! it is encoded under decides its wire form.
use vstd::prelude::*;
use vstd::string::*;
use crate::json;
use crate::json::{Json, JsonV, Number};
use crate::ordmap;
use crate::ordmap::StrMap;
use crate::text;
use crate::text::{debug_text, same};

verus! {

/// A value. The members of a map or an object are kept in name order.
#[derive(Debug)]
pub enum CtyValue {
    /// A null of whatever type it is encoded under.
    Null,
    /// A value that is not known yet.
    Unknown,
    Bool(bool),
    Number(Number),
    String(String),
    List(Vec<CtyValue>),
    SetOf(Vec<CtyValue>),
    MapOf(StrMap<CtyValue>),
    Object(StrMap<CtyValue>),
    Tuple(Vec<CtyValue>),
}

/// What a [`CtyValue`] holds.
pub enum ValueV {
    Null,
    Unknown,
    Bool(bool),
    Number(Number),
    String(Seq<char>),
    List(Seq<ValueV>),
    SetOf(Seq<ValueV>),
    MapOf(Seq<(Seq<char>, ValueV)>),
    Object(Seq<(Seq<char>, ValueV)>),
    Tuple(Seq<ValueV>),
}

impl CtyValue {
    pub open spec fn model(&self) -> ValueV
        decreases self, 1int,
    {
        match self {
            CtyValue::Null => ValueV::Null,
            CtyValue::Unknown => ValueV::Unknown,
            CtyValue::Bool(b) => ValueV::Bool(*b),
            CtyValue::Number(n) => ValueV::Number(*n),
            CtyValue::String(s) => ValueV::String(s@),
            CtyValue::List(xs) => ValueV::List(values_model(xs@)),
            CtyValue::SetOf(xs) => ValueV::SetOf(values_model(xs@)),
            CtyValue::Tuple(xs) => ValueV::Tuple(values_model(xs@)),
            CtyValue::MapOf(m) => ValueV::MapOf(members_model(m.entries@)),
            CtyValue::Object(m) => ValueV::Object(members_model(m.entries@)),
        }
    }
}

pub open spec fn values_model(xs: Seq<CtyValue>) -> Seq<ValueV>
    decreases xs, 0int,
{
    Seq::new(
        xs.len(),
        |i: int|
            if 0 <= i < xs.len() {
                xs[i].model()
            } else {
                ValueV::Null
            },
    )
}

pub open spec fn members_model(m: Seq<(String, CtyValue)>) -> Seq<(Seq<char>, ValueV)>
    decreases m, 0int,
{
    Seq::new(
        m.len(),
        |i: int|
            if 0 <= i < m.len() {
                (m[i].0@, m[i].1.model())
            } else {
                (Seq::empty(), ValueV::Null)
            },
    )
}

impl View for CtyValue {
    type V = ValueV;

    open spec fn view(&self) -> ValueV {
        self.model()
    }
}

/// The values of a list.
pub open spec fn values_view(xs: Seq<CtyValue>) -> Seq<ValueV> {
    Seq::new(xs.len(), |i: int| xs[i]@)
}

/// The members of a map.
pub open spec fn members_view(m: Seq<(Seq<char>, CtyValue)>) -> Seq<(Seq<char>, ValueV)> {
    ordmap::map_vals(m, |v: CtyValue| v@)
}

pub proof fn lemma_values_view(xs: Vec<CtyValue>)
    ensures
        values_model(xs@) == values_view(xs@),
        CtyValue::List(xs)@ == ValueV::List(values_view(xs@)),
        CtyValue::SetOf(xs)@ == ValueV::SetOf(values_view(xs@)),
        CtyValue::Tuple(xs)@ == ValueV::Tuple(values_view(xs@)),
{
    assert(values_model(xs@) =~= values_view(xs@));
}

pub proof fn lemma_members_view(m: StrMap<CtyValue>)
    ensures
        members_model(m.entries@) == members_view(m@),
        CtyValue::MapOf(m)@ == ValueV::MapOf(members_view(m@)),
        CtyValue::Object(m)@ == ValueV::Object(members_view(m@)),
{
    assert(members_model(m.entries@) =~= members_view(m@));
}

// ── Unknowns ───────────────────────────────────────────────────────

/// Neither the value nor one nested in it is unknown.
pub open spec fn fully_known(v: ValueV) -> bool
    decreases v,
{
    match v {
        ValueV::Unknown => false,
        ValueV::List(xs) => forall|i: int| #![trigger xs[i]] 0 <= i < xs.len() ==> fully_known(xs[i]),
        ValueV::SetOf(xs) => forall|i: int| #![trigger xs[i]] 0 <= i < xs.len() ==> fully_known(xs[i]),
        ValueV::Tuple(xs) => forall|i: int| #![trigger xs[i]] 0 <= i < xs.len() ==> fully_known(xs[i]),
        ValueV::MapOf(m) => forall|i: int| #![trigger m[i]] 0 <= i < m.len() ==> fully_known(m[i].1),
        ValueV::Object(m) => forall|i: int| #![trigger m[i]] 0 <= i < m.len() ==> fully_known(m[i].1),
        _ => true,
    }
}

impl CtyValue {
    pub fn string(s: &str) -> (r: Self)
        ensures
            r@ == ValueV::String(s@),
    {
        CtyValue::String(s.to_owned())
    }

    pub fn bool(b: bool) -> (r: Self)
        ensures
            r@ == ValueV::Bool(b),
    {
        CtyValue::Bool(b)
    }

    /// The number `n`.
    pub fn integer(n: i64) -> (r: Self)
        ensures
            r@ == ValueV::Number(json::int_number(n)),
    {
        if n < 0 {
            CtyValue::Number(Number::NegInt(n))
        } else {
            CtyValue::Number(Number::PosInt(n as u64))
        }
    }

    /// An object from its attributes; of two with one name the later one
    /// stays.
    pub fn object(attrs: Vec<(String, CtyValue)>) -> (r: Self)
        ensures
            r@ == ValueV::Object(ordmap::collect(named_values(attrs@))),
    {
        let m = collect_members(attrs);
        proof {
            lemma_members_view(m);
        }
        CtyValue::Object(m)
    }

    pub fn is_null(&self) -> (r: bool)
        ensures
            r == (self@ is Null),
    {
        match self {
            CtyValue::Null => true,
            _ => false,
        }
    }

    pub fn is_unknown(&self) -> (r: bool)
        ensures
            r == (self@ is Unknown),
    {
        match self {
            CtyValue::Unknown => true,
            _ => false,
        }
    }

    /// Whether this value or any nested value is unknown.
    pub fn has_unknown(&self) -> (r: bool)
        ensures
            r == !fully_known(self@),
        decreases self, 1int,
    {
        match self {
            CtyValue::Unknown => true,
            CtyValue::List(xs) => {
                proof {
                    lemma_values_view(*xs);
                    assert(self@->List_0 == values_view(xs@));
                }
                list_has_unknown(xs)
            },
            CtyValue::SetOf(xs) => {
                proof {
                    lemma_values_view(*xs);
                    assert(self@->SetOf_0 == values_view(xs@));
                }
                list_has_unknown(xs)
            },
            CtyValue::Tuple(xs) => {
                proof {
                    lemma_values_view(*xs);
                    assert(self@->Tuple_0 == values_view(xs@));
                }
                list_has_unknown(xs)
            },
            CtyValue::MapOf(m) => {
                proof {
                    lemma_members_view(*m);
                    assert(self@->MapOf_0 == members_view(m@));
                }
                members_have_unknown(m)
            },
            CtyValue::Object(m) => {
                proof {
                    lemma_members_view(*m);
                    assert(self@->Object_0 == members_view(m@));
                }
                members_have_unknown(m)
            },
            _ => false,
        }
    }
}

#[verifier::loop_isolation(false)]
fn list_has_unknown(xs: &Vec<CtyValue>) -> (r: bool)
    ensures
        r == !(forall|i: int|
            #![trigger values_view(xs@)[i]]
            0 <= i < xs@.len() ==> fully_known(values_view(xs@)[i])),
    decreases xs, 0int,
{
    let mut i: usize = 0;
    while i < xs.len()
        invariant
            i <= xs@.len(),
            forall|j: int| #![trigger values_view(xs@)[j]] 0 <= j < i ==> fully_known(values_view(xs@)[j]),
        decreases xs.len() - i,
    {
        proof {
            assert(decreases_to!(*xs => xs@[i as int]));
            assert(values_view(xs@)[i as int] == xs@[i as int]@);
        }
        if xs[i].has_unknown() {
            return true;
        }
        i += 1;
    }
    false
}

#[verifier::loop_isolation(false)]
fn members_have_unknown(m: &StrMap<CtyValue>) -> (r: bool)
    ensures
        r == !(forall|i: int|
            #![trigger members_view(m@)[i]]
            0 <= i < m@.len() ==> fully_known(members_view(m@)[i].1)),
    decreases m, 0int,
{
    let mut i: usize = 0;
    while i < m.entries.len()
        invariant
            i <= m.entries@.len(),
            forall|j: int|
                #![trigger members_view(m@)[j]]
                0 <= j < i ==> fully_known(members_view(m@)[j].1),
        decreases m.entries.len() - i,
    {
        proof {
            assert(decreases_to!(m.entries => m.entries@[i as int]));
            assert(members_view(m@)[i as int].1 == m.entries@[i as int].1@);
        }
        if m.entries[i].1.has_unknown() {
            return true;
        }
        i += 1;
    }
    false
}

/// Named values, by what they hold.
pub open spec fn named_values(m: Seq<(String, CtyValue)>) -> Seq<(Seq<char>, ValueV)> {
    Seq::new(m.len(), |i: int| (m[i].0@, m[i].1@))
}

/// The map that holds the given members.
#[verifier::loop_isolation(false)]
fn collect_members(attrs: Vec<(String, CtyValue)>) -> (r: StrMap<CtyValue>)
    ensures
        members_view(r@) == ordmap::collect(named_values(attrs@)),
{
    let mut m: StrMap<CtyValue> = StrMap::new();
    let mut i: usize = 0;
    proof {
        assert(named_values(attrs@).take(0) =~= Seq::empty());
        assert(members_view(m@) =~= ordmap::collect(named_values(attrs@).take(0)));
    }
    while i < attrs.len()
        invariant
            i <= attrs@.len(),
            members_view(m@) == ordmap::collect(named_values(attrs@).take(i as int)),
        decreases attrs.len() - i,
    {
        let v = attrs[i].1.clone();
        proof {
            ordmap::lemma_map_vals_put(m@, |v: CtyValue| v@, attrs@[i as int].0@, v);
            let b = named_values(attrs@).take(i + 1);
            assert(b.drop_last() =~= named_values(attrs@).take(i as int));
        }
        m.insert(attrs[i].0.clone(), v);
        i += 1;
    }
    proof {
        assert(named_values(attrs@).take(attrs@.len() as int) =~= named_values(attrs@));
    }
    m
}

// ── Copying ────────────────────────────────────────────────────────

#[verifier::loop_isolation(false)]
fn clone_values(xs: &Vec<CtyValue>) -> (r: Vec<CtyValue>)
    ensures
        values_view(r@) == values_view(xs@),
    decreases xs, 0int,
{
    let mut out: Vec<CtyValue> = Vec::new();
    let mut i: usize = 0;
    while i < xs.len()
        invariant
            i <= xs@.len(),
            out@.len() == i,
            forall|j: int| 0 <= j < i ==> (#[trigger] out@[j])@ == xs@[j]@,
        decreases xs.len() - i,
    {
        proof {
            assert(decreases_to!(*xs => xs@[i as int]));
        }
        let v: CtyValue = xs[i].clone();
        out.push(v);
        i += 1;
    }
    proof {
        assert(values_view(out@) =~= values_view(xs@));
    }
    out
}

#[verifier::loop_isolation(false)]
fn clone_members(m: &StrMap<CtyValue>) -> (r: StrMap<CtyValue>)
    ensures
        members_view(r@) == members_view(m@),
    decreases m, 0int,
{
    let mut out: Vec<(String, CtyValue)> = Vec::new();
    let mut i: usize = 0;
    while i < m.entries.len()
        invariant
            i <= m.entries@.len(),
            out@.len() == i,
            forall|j: int|
                0 <= j < i ==> (#[trigger] out@[j]).0@ == m.entries@[j].0@ && out@[j].1@
                    == m.entries@[j].1@,
        decreases m.entries.len() - i,
    {
        proof {
            assert(decreases_to!(m.entries => m.entries@[i as int]));
        }
        let v: CtyValue = m.entries[i].1.clone();
        out.push((m.entries[i].0.clone(), v));
        i += 1;
    }
    let o = StrMap { entries: out };
    proof {
        assert(members_view(o@) =~= members_view(m@));
    }
    o
}

impl Clone for CtyValue {
    fn clone(&self) -> (r: Self)
        ensures
            r@ == self@,
        decreases self, 1int,
    {
        match self {
            CtyValue::Null => CtyValue::Null,
            CtyValue::Unknown => CtyValue::Unknown,
            CtyValue::Bool(b) => CtyValue::Bool(*b),
            CtyValue::Number(n) => CtyValue::Number(*n),
            CtyValue::String(s) => CtyValue::String(s.clone()),
            CtyValue::List(xs) => {
                let ys = clone_values(xs);
                proof {
                    lemma_values_view(*xs);
                    lemma_values_view(ys);
                }
                CtyValue::List(ys)
            },
            CtyValue::SetOf(xs) => {
                let ys = clone_values(xs);
                proof {
                    lemma_values_view(*xs);
                    lemma_values_view(ys);
                }
                CtyValue::SetOf(ys)
            },
            CtyValue::Tuple(xs) => {
                let ys = clone_values(xs);
                proof {
                    lemma_values_view(*xs);
                    lemma_values_view(ys);
                }
                CtyValue::Tuple(ys)
            },
            CtyValue::MapOf(m) => {
                let o = clone_members(m);
                proof {
                    lemma_members_view(*m);
                    lemma_members_view(o);
                }
                CtyValue::MapOf(o)
            },
            CtyValue::Object(m) => {
                let o = clone_members(m);
                proof {
                    lemma_members_view(*m);
                    lemma_members_view(o);
                }
                CtyValue::Object(o)
            },
        }
    }
}

// ── Equality ───────────────────────────────────────────────────────

/// Equality of values: the same shape, with numbers compared as numbers.
pub open spec fn value_same(a: ValueV, b: ValueV) -> bool
    decreases a,
{
    match a {
        ValueV::Null => b is Null,
        ValueV::Unknown => b is Unknown,
        ValueV::Bool(x) => b == ValueV::Bool(x),
        ValueV::Number(x) => b is Number && json::number_same(x, b->Number_0),
        ValueV::String(x) => b == ValueV::String(x),
        ValueV::List(x) => b is List && x.len() == b->List_0.len() && forall|i: int|
            #![trigger x[i]]
            0 <= i < x.len() ==> value_same(x[i], b->List_0[i]),
        ValueV::SetOf(x) => b is SetOf && x.len() == b->SetOf_0.len() && forall|i: int|
            #![trigger x[i]]
            0 <= i < x.len() ==> value_same(x[i], b->SetOf_0[i]),
        ValueV::Tuple(x) => b is Tuple && x.len() == b->Tuple_0.len() && forall|i: int|
            #![trigger x[i]]
            0 <= i < x.len() ==> value_same(x[i], b->Tuple_0[i]),
        ValueV::MapOf(x) => b is MapOf && x.len() == b->MapOf_0.len() && forall|i: int|
            #![trigger x[i]]
            0 <= i < x.len() ==> x[i].0 == b->MapOf_0[i].0 && value_same(x[i].1, b->MapOf_0[i].1),
        ValueV::Object(x) => b is Object && x.len() == b->Object_0.len() && forall|i: int|
            #![trigger x[i]]
            0 <= i < x.len() ==> x[i].0 == b->Object_0[i].0 && value_same(x[i].1, b->Object_0[i].1),
    }
}

#[verifier::loop_isolation(false)]
fn values_same(x: &Vec<CtyValue>, y: &Vec<CtyValue>) -> (r: bool)
    ensures
        r == (x@.len() == y@.len() && forall|i: int|
            #![trigger values_view(x@)[i]]
            0 <= i < x@.len() ==> value_same(values_view(x@)[i], values_view(y@)[i])),
    decreases x, 0int,
{
    if x.len() != y.len() {
        return false;
    }
    let mut i: usize = 0;
    while i < x.len()
        invariant
            i <= x@.len(),
            forall|j: int|
                #![trigger values_view(x@)[j]]
                0 <= j < i ==> value_same(values_view(x@)[j], values_view(y@)[j]),
        decreases x.len() - i,
    {
        proof {
            assert(decreases_to!(*x => x@[i as int]));
            assert(values_view(x@)[i as int] == x@[i as int]@);
            assert(values_view(y@)[i as int] == y@[i as int]@);
        }
        if !x[i].same_as(&y[i]) {
            return false;
        }
        i += 1;
    }
    true
}

#[verifier::loop_isolation(false)]
fn members_same(x: &StrMap<CtyValue>, y: &StrMap<CtyValue>) -> (r: bool)
    ensures
        r == (x@.len() == y@.len() && forall|i: int|
            #![trigger members_view(x@)[i]]
            0 <= i < x@.len() ==> members_view(x@)[i].0 == members_view(y@)[i].0 && value_same(
                members_view(x@)[i].1,
                members_view(y@)[i].1,
            )),
    decreases x, 0int,
{
    if x.entries.len() != y.entries.len() {
        return false;
    }
    let mut i: usize = 0;
    while i < x.entries.len()
        invariant
            i <= x.entries@.len(),
            forall|j: int|
                #![trigger members_view(x@)[j]]
                0 <= j < i ==> members_view(x@)[j].0 == members_view(y@)[j].0 && value_same(
                    members_view(x@)[j].1,
                    members_view(y@)[j].1,
                ),
        decreases x.entries.len() - i,
    {
        proof {
            assert(decreases_to!(x.entries => x.entries@[i as int]));
            assert(members_view(x@)[i as int] == (
                x.entries@[i as int].0@,
                x.entries@[i as int].1@,
            ));
            assert(members_view(y@)[i as int] == (
                y.entries@[i as int].0@,
                y.entries@[i as int].1@,
            ));
        }
        if !same(x.entries[i].0.as_str(), y.entries[i].0.as_str())
            || !x.entries[i].1.same_as(&y.entries[i].1) {
            return false;
        }
        i += 1;
    }
    true
}

impl CtyValue {
    /// Equality; see [`value_same`].
    pub fn same_as(&self, other: &CtyValue) -> (r: bool)
        ensures
            r == value_same(self@, other@),
        decreases self, 1int,
    {
        match (self, other) {
            (CtyValue::Null, CtyValue::Null) => true,
            (CtyValue::Unknown, CtyValue::Unknown) => true,
            (CtyValue::Bool(x), CtyValue::Bool(y)) => *x == *y,
            (CtyValue::Number(x), CtyValue::Number(y)) => json::numbers_equal(*x, *y),
            (CtyValue::String(x), CtyValue::String(y)) => same(x.as_str(), y.as_str()),
            (CtyValue::List(x), CtyValue::List(y)) => {
                proof {
                    lemma_values_view(*x);
                    lemma_values_view(*y);
                    assert(self@->List_0 == values_view(x@));
                }
                values_same(x, y)
            },
            (CtyValue::SetOf(x), CtyValue::SetOf(y)) => {
                proof {
                    lemma_values_view(*x);
                    lemma_values_view(*y);
                    assert(self@->SetOf_0 == values_view(x@));
                }
                values_same(x, y)
            },
            (CtyValue::Tuple(x), CtyValue::Tuple(y)) => {
                proof {
                    lemma_values_view(*x);
                    lemma_values_view(*y);
                    assert(self@->Tuple_0 == values_view(x@));
                }
                values_same(x, y)
            },
            (CtyValue::MapOf(x), CtyValue::MapOf(y)) => {
                proof {
                    lemma_members_view(*x);
                    lemma_members_view(*y);
                    assert(self@->MapOf_0 == members_view(x@));
                }
                members_same(x, y)
            },
            (CtyValue::Object(x), CtyValue::Object(y)) => {
                proof {
                    lemma_members_view(*x);
                    lemma_members_view(*y);
                    assert(self@->Object_0 == members_view(x@));
                }
                members_same(x, y)
            },
            _ => false,
        }
    }
}

impl PartialEq for CtyValue {
    fn eq(&self, other: &Self) -> (r: bool) {
        self.same_as(other)
    }
}

impl vstd::std_specs::cmp::PartialEqSpecImpl for CtyValue {
    open spec fn obeys_eq_spec() -> bool {
        true
    }

    open spec fn eq_spec(&self, other: &Self) -> bool {
        value_same(self@, other@)
    }
}

// ── Text ───────────────────────────────────────────────────────────

/// How a value is written in an error message.
pub open spec fn value_debug(v: ValueV) -> Seq<char>
    decreases v, 1int,
{
    match v {
        ValueV::Null => "Null"@,
        ValueV::Unknown => "Unknown"@,
        ValueV::Bool(b) => if b {
            "Bool(true)"@
        } else {
            "Bool(false)"@
        },
        ValueV::Number(n) => "Number(Number("@ + json::json_text(JsonV::Number(n)) + "))"@,
        ValueV::String(s) => "String("@ + text::str_debug(s) + ")"@,
        ValueV::List(xs) => "List(["@ + values_debug(xs) + "])"@,
        ValueV::SetOf(xs) => "Set(["@ + values_debug(xs) + "])"@,
        ValueV::MapOf(m) => "Map({"@ + members_debug(m) + "})"@,
        ValueV::Object(m) => "Object({"@ + members_debug(m) + "})"@,
        ValueV::Tuple(xs) => "Tuple(["@ + values_debug(xs) + "])"@,
    }
}

/// The values, with `, ` between them.
pub open spec fn values_debug(xs: Seq<ValueV>) -> Seq<char>
    decreases xs, 0int,
{
    if xs.len() == 0 {
        Seq::empty()
    } else {
        let front = values_debug(xs.subrange(0, xs.len() - 1));
        let last = value_debug(xs[xs.len() - 1]);
        if xs.len() == 1 {
            last
        } else {
            front + ", "@ + last
        }
    }
}

/// The members as `"name": value`, with `, ` between them.
pub open spec fn members_debug(m: Seq<(Seq<char>, ValueV)>) -> Seq<char>
    decreases m, 0int,
{
    if m.len() == 0 {
        Seq::empty()
    } else {
        let front = members_debug(m.subrange(0, m.len() - 1));
        let last = text::str_debug(m[m.len() - 1].0) + ": "@ + value_debug(m[m.len() - 1].1);
        if m.len() == 1 {
            last
        } else {
            front + ", "@ + last
        }
    }
}

impl CtyValue {
    /// The value as text, for error messages.
    pub(crate) fn debug(&self) -> (r: String)
        ensures
            r@ == value_debug(self@),
        decreases self, 1int,
    {
        match self {
            CtyValue::Null => "Null".to_owned(),
            CtyValue::Unknown => "Unknown".to_owned(),
            CtyValue::Bool(b) => if *b {
                "Bool(true)".to_owned()
            } else {
                "Bool(false)".to_owned()
            },
            CtyValue::Number(n) => {
                let t = Json::Number(*n).text();
                text::join3("Number(Number(", t.as_str(), "))")
            },
            CtyValue::String(s) => text::join3("String(", debug_text(s.as_str()).as_str(), ")"),
            CtyValue::List(xs) => {
                proof {
                    lemma_values_view(*xs);
                }
                text::join3("List([", debug_values(xs).as_str(), "])")
            },
            CtyValue::SetOf(xs) => {
                proof {
                    lemma_values_view(*xs);
                }
                text::join3("Set([", debug_values(xs).as_str(), "])")
            },
            CtyValue::Tuple(xs) => {
                proof {
                    lemma_values_view(*xs);
                }
                text::join3("Tuple([", debug_values(xs).as_str(), "])")
            },
            CtyValue::MapOf(m) => {
                proof {
                    lemma_members_view(*m);
                }
                text::join3("Map({", debug_members(m).as_str(), "})")
            },
            CtyValue::Object(m) => {
                proof {
                    lemma_members_view(*m);
                }
                text::join3("Object({", debug_members(m).as_str(), "})")
            },
        }
    }
}

#[verifier::loop_isolation(false)]
fn debug_values(xs: &Vec<CtyValue>) -> (r: String)
    ensures
        r@ == values_debug(values_view(xs@)),
    decreases xs, 0int,
{
    let mut out = String::new();
    let mut i: usize = 0;
    let ghost all = values_view(xs@);
    proof {
        assert(all.subrange(0, 0) =~= Seq::empty());
    }
    while i < xs.len()
        invariant
            i <= xs@.len(),
            out@ == values_debug(all.subrange(0, i as int)),
        decreases xs.len() - i,
    {
        proof {
            assert(decreases_to!(*xs => xs@[i as int]));
            let b = all.subrange(0, i + 1);
            assert(b.subrange(0, i as int) =~= all.subrange(0, i as int));
            assert(b[i as int] == xs@[i as int]@);
        }
        let one = xs[i].debug();
        if i > 0 {
            out.append(", ");
        }
        out.append(one.as_str());
        proof {
            if i == 0 {
                assert(Seq::<char>::empty() + one@ =~= one@);
            }
        }
        i += 1;
    }
    proof {
        assert(all.subrange(0, all.len() as int) =~= all);
    }
    out
}

#[verifier::loop_isolation(false)]
fn debug_members(m: &StrMap<CtyValue>) -> (r: String)
    ensures
        r@ == members_debug(members_view(m@)),
    decreases m, 0int,
{
    let mut out = String::new();
    let mut i: usize = 0;
    let ghost all = members_view(m@);
    proof {
        assert(all.subrange(0, 0) =~= Seq::empty());
    }
    while i < m.entries.len()
        invariant
            i <= m.entries@.len(),
            out@ == members_debug(all.subrange(0, i as int)),
        decreases m.entries.len() - i,
    {
        proof {
            assert(decreases_to!(m.entries => m.entries@[i as int]));
            let b = all.subrange(0, i + 1);
            assert(b.subrange(0, i as int) =~= all.subrange(0, i as int));
            assert(b[i as int] == (m.entries@[i as int].0@, m.entries@[i as int].1@));
        }
        let name = debug_text(m.entries[i].0.as_str());
        let one = m.entries[i].1.debug();
        let both = text::join3(name.as_str(), ": ", one.as_str());
        if i > 0 {
            out.append(", ");
        }
        out.append(both.as_str());
        proof {
            if i == 0 {
                assert(Seq::<char>::empty() + both@ =~= both@);
            }
        }
        i += 1;
    }
    proof {
        assert(all.subrange(0, all.len() as int) =~= all);
    }
    out
}

/// A value is known where no part of it, however deep, is unknown.
pub proof fn law_known_by_part(v: ValueV)
    ensures
        v is Unknown ==> !fully_known(v),
        v is Null || v is Bool || v is Number || v is String ==> fully_known(v),
        v matches ValueV::List(xs) ==> (fully_known(v) <==> forall|i: int|
            0 <= i < xs.len() ==> fully_known(#[trigger] xs[i])),
        v matches ValueV::SetOf(xs) ==> (fully_known(v) <==> forall|i: int|
            0 <= i < xs.len() ==> fully_known(#[trigger] xs[i])),
        v matches ValueV::Tuple(xs) ==> (fully_known(v) <==> forall|i: int|
            0 <= i < xs.len() ==> fully_known(#[trigger] xs[i])),
        v matches ValueV::MapOf(m) ==> (fully_known(v) <==> forall|i: int|
            0 <= i < m.len() ==> fully_known((#[trigger] m[i]).1)),
        v matches ValueV::Object(m) ==> (fully_known(v) <==> forall|i: int|
            0 <= i < m.len() ==> fully_known((#[trigger] m[i]).1)),
{
}

/// Every value is the same as itself.
pub proof fn law_values_are_themselves(v: ValueV)
    ensures
        value_same(v, v),
    decreases v,
{
    match v {
        ValueV::List(xs) => {
            assert forall|i: int| #![trigger xs[i]] 0 <= i < xs.len() implies value_same(
                xs[i],
                xs[i],
            ) by {
                law_values_are_themselves(xs[i]);
            }
        },
        ValueV::SetOf(xs) => {
            assert forall|i: int| #![trigger xs[i]] 0 <= i < xs.len() implies value_same(
                xs[i],
                xs[i],
            ) by {
                law_values_are_themselves(xs[i]);
            }
        },
        ValueV::Tuple(xs) => {
            assert forall|i: int| #![trigger xs[i]] 0 <= i < xs.len() implies value_same(
                xs[i],
                xs[i],
            ) by {
                law_values_are_themselves(xs[i]);
            }
        },
        ValueV::MapOf(m) => {
            assert forall|i: int| #![trigger m[i]] 0 <= i < m.len() implies value_same(
                m[i].1,
                m[i].1,
            ) by {
                law_values_are_themselves(m[i].1);
            }
        },
        ValueV::Object(m) => {
            assert forall|i: int| #![trigger m[i]] 0 <= i < m.len() implies value_same(
                m[i].1,
                m[i].1,
            ) by {
                law_values_are_themselves(m[i].1);
            }
        },
        _ => {},
    }
}

/// Values that are the same are of one type and hold the same.
pub proof fn law_same_values_by_part(a: ValueV, b: ValueV)
    requires
        value_same(a, b),
    ensures
        a is Null <==> b is Null,
        a is Unknown <==> b is Unknown,
        a is Bool || a is String ==> a == b,
        a is Number ==> b is Number && json::number_same(a->Number_0, b->Number_0),
        a matches ValueV::List(xs) ==> b is List && b->List_0.len() == xs.len() && forall|i: int|
            0 <= i < xs.len() ==> value_same(#[trigger] xs[i], b->List_0[i]),
        a matches ValueV::SetOf(xs) ==> b is SetOf && b->SetOf_0.len() == xs.len() && forall|i: int|
            0 <= i < xs.len() ==> value_same(#[trigger] xs[i], b->SetOf_0[i]),
        a matches ValueV::Tuple(xs) ==> b is Tuple && b->Tuple_0.len() == xs.len() && forall|i: int|
            0 <= i < xs.len() ==> value_same(#[trigger] xs[i], b->Tuple_0[i]),
        a matches ValueV::MapOf(m) ==> b is MapOf && b->MapOf_0.len() == m.len() && forall|i: int|
            0 <= i < m.len() ==> (#[trigger] m[i]).0 == b->MapOf_0[i].0 && value_same(
                m[i].1,
                b->MapOf_0[i].1,
            ),
        a matches ValueV::Object(m) ==> b is Object && b->Object_0.len() == m.len() && forall|
            i: int,
        |
            0 <= i < m.len() ==> (#[trigger] m[i]).0 == b->Object_0[i].0 && value_same(
                m[i].1,
                b->Object_0[i].1,
            ),
{
}

} // verus!
