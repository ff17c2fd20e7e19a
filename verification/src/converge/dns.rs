//! DNS records. A record is known by its zone, its name and its type; what it
//! holds can change.
use vstd::prelude::*;
use crate::converge::decode;
use crate::converge::decode::{
    clash, clash_text, find_record_fault, part, part_of, record_fault, Field, Shape,
};
use crate::converge::diff::lemma_contains_first;
use crate::converge::store::{
    lemma_run_end, lemma_run_start, lemma_run_step, on_course, record, run, Verdict,
};
use crate::converge::{
    applied_view, build_outcome, change_with_severity, changes_view, failed_view, planned, Action,
    AppliedChange, Change, ChangeSeverity, ChangeV, FailedChange, Outcome, Plan, Reconciler,
    ReconcilerError, ReconcilerErrorV, ResultV,
};
use crate::gather;
use crate::json::{lemma_array_view, lemma_object_view, list_view, object_view, Json, JsonV, Number};
use crate::keyed::{Key, KeyedMap};
use crate::ordmap::{
    collect, erase, lemma_asymmetric, lemma_erase_at, lemma_erase_sorted, lemma_lookup_early,
    lemma_map_vals_erase, lemma_map_vals_put, lemma_put_at, lemma_put_sorted, lemma_rest_sorted,
    lookup, map_vals, put, sorted, Linear, StrMap,
};
use crate::text;
use crate::text::{cut, lex_lt, lowered, uppered};
use crate::time;

verus! {

/// What a record is known by.
#[derive(Debug, PartialEq, Eq)]
pub struct RecordKey {
    pub zone: String,
    pub name: String,
    /// The type of the record: "A", "CNAME", "MX", "TXT".
    pub rtype: String,
}

/// What a [`RecordKey`] holds.
#[verifier::ext_equal]
pub struct KeyV {
    pub zone: Seq<char>,
    pub name: Seq<char>,
    pub rtype: Seq<char>,
}

/// The order of records: by zone, then by name, then by type.
#[verifier::opaque]
pub open spec fn key_before(a: KeyV, b: KeyV) -> bool {
    lex_lt(a.zone, b.zone) || (a.zone == b.zone && (lex_lt(a.name, b.name) || (a.name == b.name
        && lex_lt(a.rtype, b.rtype))))
}

impl Linear for KeyV {
    open spec fn precedes(self, other: Self) -> bool {
        key_before(self, other)
    }

    proof fn irreflexive(a: Self) {
        reveal(key_before);
        text::lemma_lex_irreflexive(a.zone);
        text::lemma_lex_irreflexive(a.name);
        text::lemma_lex_irreflexive(a.rtype);
    }

    proof fn transitive(a: Self, b: Self, c: Self) {
        reveal(key_before);
        if lex_lt(a.zone, b.zone) && lex_lt(b.zone, c.zone) {
            text::lemma_lex_transitive(a.zone, b.zone, c.zone);
        }
        if lex_lt(a.name, b.name) && lex_lt(b.name, c.name) {
            text::lemma_lex_transitive(a.name, b.name, c.name);
        }
        if lex_lt(a.rtype, b.rtype) && lex_lt(b.rtype, c.rtype) {
            text::lemma_lex_transitive(a.rtype, b.rtype, c.rtype);
        }
    }

    proof fn total(a: Self, b: Self) {
        reveal(key_before);
        if a.zone != b.zone {
            text::lemma_lex_total(a.zone, b.zone);
        } else if a.name != b.name {
            text::lemma_lex_total(a.name, b.name);
        } else {
            text::lemma_lex_total(a.rtype, b.rtype);
        }
    }
}

impl View for RecordKey {
    type V = KeyV;

    open spec fn view(&self) -> KeyV {
        KeyV { zone: self.zone@, name: self.name@, rtype: self.rtype@ }
    }
}

impl Key for RecordKey {
    type O = KeyV;

    open spec fn rank(&self) -> KeyV {
        self@
    }

    fn is_before(&self, other: &Self) -> (r: bool) {
        proof {
            reveal(key_before);
        }
        text::before(self.zone.as_str(), other.zone.as_str()) || (text::same(
            self.zone.as_str(),
            other.zone.as_str(),
        ) && (text::before(self.name.as_str(), other.name.as_str()) || (text::same(
            self.name.as_str(),
            other.name.as_str(),
        ) && text::before(self.rtype.as_str(), other.rtype.as_str()))))
    }

    fn is_same(&self, other: &Self) -> (r: bool) {
        text::same(self.zone.as_str(), other.zone.as_str()) && text::same(
            self.name.as_str(),
            other.name.as_str(),
        ) && text::same(self.rtype.as_str(), other.rtype.as_str())
    }

    fn copy_key(&self) -> (r: Self) {
        RecordKey { zone: self.zone.clone(), name: self.name.clone(), rtype: self.rtype.clone() }
    }
}

impl Clone for RecordKey {
    fn clone(&self) -> (r: Self)
        ensures
            r@ == self@,
    {
        self.copy_key()
    }
}

/// What every address of a record begins with.
pub open spec fn dns_prefix() -> Seq<char> {
    "dns_record:"@
}

/// The address of a record: its parts with `:` between them, since zones and
/// names have dots.
pub open spec fn joined(zone: Seq<char>, name: Seq<char>, rtype: Seq<char>) -> Seq<char> {
    dns_prefix() + zone + ":"@ + name + ":"@ + rtype
}

/// The address of a record, with the type in lower case.
pub open spec fn key_address(k: KeyV) -> Seq<char> {
    joined(k.zone, k.name, lowered(k.rtype))
}

/// The parts of an address: the zone, the name and the type as they stand.
pub open spec fn address_parts(address: Seq<char>) -> Option<(Seq<char>, Seq<char>, Seq<char>)> {
    if text::stands_at(address, dns_prefix(), 0) {
        match cut(address.skip(dns_prefix().len() as int), ':') {
            Some((zone, rest)) => match cut(rest, ':') {
                Some((name, rtype)) => Some((zone, name, rtype)),
                None => None,
            },
            None => None,
        }
    } else {
        None
    }
}

/// The record that an address speaks of; the type in upper case.
pub open spec fn key_at(address: Seq<char>) -> Option<KeyV> {
    match address_parts(address) {
        Some((zone, name, rtype)) => Some(KeyV { zone, name, rtype: uppered(rtype) }),
        None => None,
    }
}

/// The address of a record whose type is in lower case; see [`joined`].
pub fn join_address(zone: &str, name: &str, rtype: &str) -> (r: String)
    ensures
        r@ == joined(zone@, name@, rtype@),
{
    let a = text::join4("dns_record:", zone, ":", name);
    text::join3(a.as_str(), ":", rtype)
}

impl RecordKey {
    /// The address of the record; see [`key_address`].
    pub fn address(&self) -> (r: String)
        ensures
            r@ == key_address(self@),
            text::is_ascii(self@.rtype) ==> r@ == joined(
                self@.zone,
                self@.name,
                text::ascii_lower(self@.rtype),
            ),
    {
        let rtype = text::lower(self.rtype.as_str());
        join_address(self.zone.as_str(), self.name.as_str(), rtype.as_str())
    }
}

/// The parts of an address; see [`address_parts`].
pub fn split_address(addr: &str) -> (r: Option<(String, String, String)>)
    ensures
        match r {
            Some(p) => address_parts(addr@) == Some((p.0@, p.1@, p.2@)),
            None => address_parts(addr@) is None,
        },
{
    match text::strip_prefix(addr, "dns_record:") {
        Some(rest) => match text::split_once(rest.as_str(), ':') {
            Some((zone, rest)) => match text::split_once(rest.as_str(), ':') {
                Some((name, rtype)) => Some((zone, name, rtype)),
                None => None,
            },
            None => None,
        },
        None => None,
    }
}

/// The record that an address speaks of; see [`key_at`].
pub fn parse_address(addr: &str) -> (r: Option<RecordKey>)
    ensures
        match r {
            Some(k) => key_at(addr@) == Some(k@) && (text::is_ascii(address_parts(addr@)->Some_0.2)
                ==> k@.rtype == text::ascii_upper(address_parts(addr@)->Some_0.2)),
            None => key_at(addr@) is None,
        },
{
    match split_address(addr) {
        Some((zone, name, rtype)) => Some(
            RecordKey { zone, name, rtype: text::upper(rtype.as_str()) },
        ),
        None => None,
    }
}

/// The parts come back from an address where the zone and the name are
/// without `:`.
pub proof fn law_parts_come_back(zone: Seq<char>, name: Seq<char>, rtype: Seq<char>)
    requires
        !zone.contains(':'),
        !name.contains(':'),
    ensures
        address_parts(joined(zone, name, rtype)) == Some((zone, name, rtype)),
{
    reveal_strlit(":");
    let p = dns_prefix();
    let a = joined(zone, name, rtype);
    let n = p.len() as int;
    assert(a.subrange(0, n) =~= p);
    let rest = a.skip(n);
    assert(rest =~= zone + ":"@ + name + ":"@ + rtype);
    assert forall|j: int| 0 <= j < zone.len() implies rest[j] != ':' by {
        assert(rest[j] == zone[j]);
        assert(zone.contains(zone[j]));
    }
    assert(rest[zone.len() as int] == ':');
    text::lemma_first_at(rest, ':', zone.len() as int);
    assert(rest.take(zone.len() as int) =~= zone);
    let tail = rest.skip(zone.len() as int + 1);
    assert(tail =~= name + ":"@ + rtype);
    assert forall|j: int| 0 <= j < name.len() implies tail[j] != ':' by {
        assert(tail[j] == name[j]);
        assert(name.contains(name[j]));
    }
    assert(tail[name.len() as int] == ':');
    text::lemma_first_at(tail, ':', name.len() as int);
    assert(tail.take(name.len() as int) =~= name);
    assert(tail.skip(name.len() as int + 1) =~= rtype);
}

/// A record whose zone and name are without `:`, and whose type comes back
/// from lower case, comes back from its address.
pub proof fn law_address_round_trip(k: KeyV)
    requires
        !k.zone.contains(':'),
        !k.name.contains(':'),
        uppered(lowered(k.rtype)) == k.rtype,
    ensures
        key_at(key_address(k)) == Some(k),
        comes_back(k),
{
    reveal(comes_back);
    law_parts_come_back(k.zone, k.name, lowered(k.rtype));
}

/// An ASCII type without lower-case letters, such as `A` or `CNAME`, comes
/// back from lower case.
pub proof fn law_plain_types_come_back(rtype: Seq<char>)
    requires
        text::is_ascii(rtype),
        forall|i: int| 0 <= i < rtype.len() ==> !('a' <= #[trigger] rtype[i] <= 'z'),
    ensures
        text::is_ascii(text::ascii_lower(rtype)),
        text::ascii_upper(text::ascii_lower(rtype)) == rtype,
{
    text::lemma_upper_lower(rtype);
}

// ── What a record holds ────────────────────────────────────────────

/// What a record holds.
#[derive(Debug)]
pub struct RecordValue {
    pub value: String,
    pub ttl: u32,
    /// Whether traffic goes through the provider.
    pub proxied: bool,
}

/// What a [`RecordValue`] holds.
#[verifier::ext_equal]
pub struct ValueV {
    pub value: Seq<char>,
    pub ttl: u32,
    pub proxied: bool,
}

impl View for RecordValue {
    type V = ValueV;

    open spec fn view(&self) -> ValueV {
        ValueV { value: self.value@, ttl: self.ttl, proxied: self.proxied }
    }
}

impl Clone for RecordValue {
    fn clone(&self) -> (r: Self)
        ensures
            r@ == self@,
    {
        RecordValue { value: self.value.clone(), ttl: self.ttl, proxied: self.proxied }
    }
}

impl RecordValue {
    /// Whether two records hold the same.
    pub fn same_as(&self, other: &RecordValue) -> (r: bool)
        ensures
            r == (self@ == other@),
    {
        text::same(self.value.as_str(), other.value.as_str()) && self.ttl == other.ttl && self.proxied
            == other.proxied
    }
}

impl Eq for RecordValue {

}

impl PartialEq for RecordValue {
    fn eq(&self, other: &Self) -> (r: bool) {
        self.same_as(other)
    }
}

impl vstd::std_specs::cmp::PartialEqSpecImpl for RecordValue {
    open spec fn obeys_eq_spec() -> bool {
        true
    }

    open spec fn eq_spec(&self, other: &Self) -> bool {
        self@ == other@
    }
}

/// A record.
#[derive(Debug, PartialEq, Eq)]
pub struct Record {
    pub key: RecordKey,
    pub value: RecordValue,
}

impl Clone for Record {
    fn clone(&self) -> (r: Self)
        ensures
            r.key@ == self.key@,
            r.value@ == self.value@,
    {
        Record { key: self.key.clone(), value: self.value.clone() }
    }
}

pub open spec fn key_fields() -> Seq<Field> {
    seq![
        Field { name: "zone", shape: Shape::Text, in_object: true, in_array: true },
        Field { name: "name", shape: Shape::Text, in_object: true, in_array: true },
        Field { name: "type", shape: Shape::Text, in_object: true, in_array: true },
    ]
}

fn key_field_list() -> (r: Vec<Field>)
    ensures
        r@ == key_fields(),
{
    let r = vec![
        Field { name: "zone", shape: Shape::Text, in_object: true, in_array: true },
        Field { name: "name", shape: Shape::Text, in_object: true, in_array: true },
        Field { name: "type", shape: Shape::Text, in_object: true, in_array: true },
    ];
    proof {
        assert(r@ =~= key_fields());
    }
    r
}

pub open spec fn value_fields() -> Seq<Field> {
    seq![
        Field { name: "value", shape: Shape::Text, in_object: true, in_array: true },
        Field { name: "ttl", shape: Shape::Small, in_object: true, in_array: true },
        Field { name: "proxied", shape: Shape::Flag, in_object: false, in_array: false },
    ]
}

fn value_field_list() -> (r: Vec<Field>)
    ensures
        r@ == value_fields(),
{
    let r = vec![
        Field { name: "value", shape: Shape::Text, in_object: true, in_array: true },
        Field { name: "ttl", shape: Shape::Small, in_object: true, in_array: true },
        Field { name: "proxied", shape: Shape::Flag, in_object: false, in_array: false },
    ];
    proof {
        assert(r@ =~= value_fields());
    }
    r
}

pub open spec fn record_fields() -> Seq<Field> {
    seq![
        Field { name: "key", shape: Shape::Any, in_object: true, in_array: true },
        Field { name: "value", shape: Shape::Any, in_object: true, in_array: true },
    ]
}

fn record_field_list() -> (r: Vec<Field>)
    ensures
        r@ == record_fields(),
{
    let r = vec![
        Field { name: "key", shape: Shape::Any, in_object: true, in_array: true },
        Field { name: "value", shape: Shape::Any, in_object: true, in_array: true },
    ];
    proof {
        assert(r@ =~= record_fields());
    }
    r
}

/// The key that JSON holds, or why it holds none.
pub open spec fn key_of(v: JsonV) -> Result<KeyV, Seq<char>> {
    match record_fault("RecordKey"@, key_fields(), v) {
        Some(e) => Err(e),
        None => Ok(
            KeyV {
                zone: decode::text_value(part(key_fields(), v, 0)),
                name: decode::text_value(part(key_fields(), v, 1)),
                rtype: decode::text_value(part(key_fields(), v, 2)),
            },
        ),
    }
}

/// What a record holds according to JSON, or why JSON does not say.
pub open spec fn value_of(v: JsonV) -> Result<ValueV, Seq<char>> {
    match record_fault("RecordValue"@, value_fields(), v) {
        Some(e) => Err(e),
        None => Ok(
            ValueV {
                value: decode::text_value(part(value_fields(), v, 0)),
                ttl: decode::small_value(part(value_fields(), v, 1)),
                proxied: decode::flag_value(part(value_fields(), v, 2)),
            },
        ),
    }
}

/// The fault of a part that may be missing.
pub open spec fn part_fault<M>(v: Option<JsonV>, read: spec_fn(JsonV) -> Result<M, Seq<char>>) -> Option<
    Seq<char>,
> {
    match v {
        Some(x) => match read(x) {
            Err(e) => Some(e),
            Ok(_) => None,
        },
        None => None,
    }
}

/// The record that JSON holds, or why it holds none: a fault in the key comes
/// before one in what it holds, and both before a part that is missing.
pub open spec fn record_of(v: JsonV) -> Result<(KeyV, ValueV), Seq<char>> {
    let k = part(record_fields(), v, 0);
    let w = part(record_fields(), v, 1);
    match part_fault(k, |x: JsonV| key_of(x)) {
        Some(e) => Err(e),
        None => match part_fault(w, |x: JsonV| value_of(x)) {
            Some(e) => Err(e),
            None => match record_fault("Record"@, record_fields(), v) {
                Some(e) => Err(e),
                None => Ok((key_of(k->Some_0)->Ok_0, value_of(w->Some_0)->Ok_0)),
            },
        },
    }
}

/// Records, by what they are known by and what they hold.
pub type Entries = Seq<(KeyV, ValueV)>;

/// The records that JSON holds one by one, or the first fault among them.
pub open spec fn list_of(xs: Seq<JsonV>) -> Result<Entries, Seq<char>>
    decreases xs.len(),
{
    if xs.len() == 0 {
        Ok(Seq::empty())
    } else {
        match list_of(xs.drop_last()) {
            Err(e) => Err(e),
            Ok(done) => match record_of(xs.last()) {
                Err(e) => Err(e),
                Ok(r) => Ok(done.push(r)),
            },
        }
    }
}

/// The records that JSON holds, or why it holds none.
pub open spec fn records_of(v: JsonV) -> Result<Entries, Seq<char>> {
    match v {
        JsonV::Array(xs) => list_of(xs),
        _ => Err(clash(v, "a sequence"@)),
    }
}

impl RecordKey {
    pub fn from_json(v: &Json) -> (r: Result<RecordKey, String>)
        ensures
            match r {
                Ok(k) => key_of(v@) == Ok::<KeyV, Seq<char>>(k@),
                Err(e) => key_of(v@) == Err::<KeyV, Seq<char>>(e@),
            },
    {
        let fs = key_field_list();
        match find_record_fault("RecordKey", &fs, v) {
            Some(e) => Err(e),
            None => Ok(
                RecordKey {
                    zone: decode::take_text(part_of(&fs, v, 0)),
                    name: decode::take_text(part_of(&fs, v, 1)),
                    rtype: decode::take_text(part_of(&fs, v, 2)),
                },
            ),
        }
    }
}

impl RecordValue {
    pub fn from_json(v: &Json) -> (r: Result<RecordValue, String>)
        ensures
            match r {
                Ok(x) => value_of(v@) == Ok::<ValueV, Seq<char>>(x@),
                Err(e) => value_of(v@) == Err::<ValueV, Seq<char>>(e@),
            },
    {
        let fs = value_field_list();
        match find_record_fault("RecordValue", &fs, v) {
            Some(e) => Err(e),
            None => Ok(
                RecordValue {
                    value: decode::take_text(part_of(&fs, v, 0)),
                    ttl: decode::take_small(part_of(&fs, v, 1)),
                    proxied: decode::take_flag(part_of(&fs, v, 2)),
                },
            ),
        }
    }

    pub fn to_json(&self) -> (r: Json)
        ensures
            r@ == value_json(self@),
    {
        let m = StrMap {
            entries: vec![
                ("proxied".to_owned(), Json::Bool(self.proxied)),
                ("ttl".to_owned(), Json::Number(Number::PosInt(self.ttl as u64))),
                ("value".to_owned(), Json::String(self.value.clone())),
            ],
        };
        proof {
            lemma_object_view(m);
            assert(object_view(m@) =~= value_json(self@)->Object_0);
        }
        Json::Object(m)
    }
}

impl Record {
    pub fn from_json(v: &Json) -> (r: Result<Record, String>)
        ensures
            match r {
                Ok(x) => record_of(v@) == Ok::<(KeyV, ValueV), Seq<char>>((x.key@, x.value@)),
                Err(e) => record_of(v@) == Err::<(KeyV, ValueV), Seq<char>>(e@),
            },
    {
        let fs = record_field_list();
        let key = match part_of(&fs, v, 0) {
            Some(x) => match RecordKey::from_json(x) {
                Err(e) => {
                    return Err(e);
                },
                Ok(k) => Some(k),
            },
            None => None,
        };
        let value = match part_of(&fs, v, 1) {
            Some(x) => match RecordValue::from_json(x) {
                Err(e) => {
                    return Err(e);
                },
                Ok(w) => Some(w),
            },
            None => None,
        };
        match find_record_fault("Record", &fs, v) {
            Some(e) => Err(e),
            None => {
                proof {
                    reveal_strlit("key");
                    reveal_strlit("value");
                    assert("key"@.len() != "value"@.len());
                    reveal_with_fuel(decode::shape_of, 3);
                    decode::lemma_part_shape("Record"@, record_fields(), v@, 0);
                    decode::lemma_part_shape("Record"@, record_fields(), v@, 1);
                }
                match (key, value) {
                    (Some(key), Some(value)) => Ok(Record { key, value }),
                    _ => {
                        proof {
                            assert(false);
                        }
                        Err(String::new())
                    },
                }
            },
        }
    }

    pub fn to_json(&self) -> (r: Json)
        ensures
            r@ == record_json(self.key@, self.value@),
    {
        let k = StrMap {
            entries: vec![
                ("name".to_owned(), Json::String(self.key.name.clone())),
                ("type".to_owned(), Json::String(self.key.rtype.clone())),
                ("zone".to_owned(), Json::String(self.key.zone.clone())),
            ],
        };
        proof {
            lemma_object_view(k);
            assert(object_view(k@) =~= key_json(self.key@)->Object_0);
        }
        let m = StrMap {
            entries: vec![
                ("key".to_owned(), Json::Object(k)),
                ("value".to_owned(), self.value.to_json()),
            ],
        };
        proof {
            lemma_object_view(m);
            assert(object_view(m@) =~= record_json(self.key@, self.value@)->Object_0);
        }
        Json::Object(m)
    }
}

/// What a record holds, as JSON.
pub open spec fn value_json(v: ValueV) -> JsonV {
    JsonV::Object(
        seq![
            ("proxied"@, JsonV::Bool(v.proxied)),
            ("ttl"@, JsonV::Number(Number::PosInt(v.ttl as u64))),
            ("value"@, JsonV::String(v.value)),
        ],
    )
}

/// A key as JSON.
pub open spec fn key_json(k: KeyV) -> JsonV {
    JsonV::Object(
        seq![
            ("name"@, JsonV::String(k.name)),
            ("type"@, JsonV::String(k.rtype)),
            ("zone"@, JsonV::String(k.zone)),
        ],
    )
}

/// A record as JSON.
pub open spec fn record_json(k: KeyV, v: ValueV) -> JsonV {
    JsonV::Object(seq![("key"@, key_json(k)), ("value"@, value_json(v))])
}

/// Records as JSON.
pub open spec fn entries_json(es: Entries) -> JsonV {
    JsonV::Array(es.map_values(|e: (KeyV, ValueV)| record_json(e.0, e.1)))
}

/// What a record holds is read back from its JSON.
pub proof fn lemma_value_reads_back(v: ValueV)
    ensures
        value_of(value_json(v)) == Ok::<ValueV, Seq<char>>(v),
{
    reveal_strlit("value");
    reveal_strlit("ttl");
    reveal_strlit("proxied");
    let fs = value_fields();
    let o = value_json(v)->Object_0;
    assert("value"@.len() == 5 && "ttl"@.len() == 3 && "proxied"@.len() == 7);
    reveal_with_fuel(decode::shape_of, 4);
    reveal_with_fuel(decode::members_fault, 4);
    reveal_with_fuel(decode::missing, 4);
    reveal_with_fuel(lookup, 4);
    assert(lookup(o, "proxied"@) == Some(o[0].1));
    assert(lookup(o, "ttl"@) == Some(o[1].1));
    assert(lookup(o, "value"@) == Some(o[2].1));
    assert(decode::member_fault(fs, o[0]) is None);
    assert(decode::member_fault(fs, o[1]) is None);
    assert(decode::member_fault(fs, o[2]) is None);
    assert(record_fault("RecordValue"@, fs, value_json(v)) is None);
}

/// A key is read back from its JSON.
pub proof fn lemma_key_reads_back(k: KeyV)
    ensures
        key_of(key_json(k)) == Ok::<KeyV, Seq<char>>(k),
{
    reveal_strlit("zone");
    reveal_strlit("name");
    reveal_strlit("type");
    let fs = key_fields();
    let o = key_json(k)->Object_0;
    assert("zone"@[0] == 'z' && "name"@[0] == 'n' && "type"@[0] == 't');
    reveal_with_fuel(decode::shape_of, 4);
    reveal_with_fuel(decode::members_fault, 4);
    reveal_with_fuel(decode::missing, 4);
    reveal_with_fuel(lookup, 4);
    assert(lookup(o, "name"@) == Some(o[0].1));
    assert(lookup(o, "type"@) == Some(o[1].1));
    assert(lookup(o, "zone"@) == Some(o[2].1));
    assert(decode::member_fault(fs, o[0]) is None);
    assert(decode::member_fault(fs, o[1]) is None);
    assert(decode::member_fault(fs, o[2]) is None);
    assert(record_fault("RecordKey"@, fs, key_json(k)) is None);
}

/// A record is read back from its JSON.
pub proof fn lemma_record_reads_back(k: KeyV, v: ValueV)
    ensures
        record_of(record_json(k, v)) == Ok::<(KeyV, ValueV), Seq<char>>((k, v)),
{
    reveal_strlit("key");
    reveal_strlit("value");
    assert("key"@.len() == 3 && "value"@.len() == 5);
    lemma_key_reads_back(k);
    lemma_value_reads_back(v);
    let fs = record_fields();
    let o = record_json(k, v)->Object_0;
    reveal_with_fuel(decode::shape_of, 3);
    reveal_with_fuel(decode::members_fault, 3);
    reveal_with_fuel(decode::missing, 3);
    reveal_with_fuel(lookup, 3);
    assert(lookup(o, "key"@) == Some(o[0].1));
    assert(lookup(o, "value"@) == Some(o[1].1));
    assert(record_fault("Record"@, fs, record_json(k, v)) is None);
}

/// Records are read back from their JSON.
pub proof fn law_records_read_back(es: Entries)
    ensures
        records_of(entries_json(es)) == Ok::<Entries, Seq<char>>(es),
    decreases es.len(),
{
    let xs = entries_json(es)->Array_0;
    if es.len() > 0 {
        law_records_read_back(es.drop_last());
        assert(xs.drop_last() =~= entries_json(es.drop_last())->Array_0);
        lemma_record_reads_back(es.last().0, es.last().1);
        assert(es.drop_last().push(es.last()) =~= es);
    } else {
        assert(es =~= Seq::empty());
    }
}

proof fn lemma_list_error(xs: Seq<JsonV>, n: int)
    requires
        0 <= n <= xs.len(),
        list_of(xs.take(n)) is Err,
    ensures
        list_of(xs) == list_of(xs.take(n)),
    decreases xs.len() - n,
{
    if n == xs.len() {
        assert(xs.take(n) =~= xs);
    } else {
        assert(xs.take(n + 1).drop_last() =~= xs.take(n));
        lemma_list_error(xs, n + 1);
    }
}

/// Records by their keys; of two with one key the later one stays.
pub open spec fn indexed(es: Entries) -> Entries {
    collect(es)
}

/// Read records and index them by their keys.
fn read_records(v: &Json) -> (r: Result<KeyedMap<RecordKey, RecordValue>, String>)
    ensures
        match r {
            Ok(m) => records_of(v@) is Ok && entries_of(&m) == indexed(records_of(v@)->Ok_0),
            Err(e) => records_of(v@) == Err::<Entries, Seq<char>>(e@),
        },
{
    match v {
        Json::Array(xs) => {
            let ghost all = list_view(xs@);
            let mut m: KeyedMap<RecordKey, RecordValue> = KeyedMap::new();
            let mut i: usize = 0;
            proof {
                lemma_array_view(*xs);
                assert(all.take(0) =~= Seq::empty());
                assert(entries_of(&m) =~= Seq::empty());
            }
            while i < xs.len()
                invariant
                    i <= xs@.len(),
                    all == list_view(xs@),
                    v@ == JsonV::Array(all),
                    list_of(all.take(i as int)) is Ok,
                    entries_of(&m) == collect(list_of(all.take(i as int))->Ok_0),
                decreases xs.len() - i,
            {
                proof {
                    assert(all.take(i + 1).drop_last() =~= all.take(i as int));
                    assert(all.take(i + 1).last() == xs@[i as int]@);
                }
                match Record::from_json(&xs[i]) {
                    Err(e) => {
                        proof {
                            lemma_list_error(all, i + 1);
                        }
                        return Err(e);
                    },
                    Ok(x) => {
                        proof {
                            let done = list_of(all.take(i as int))->Ok_0;
                            let next = done.push((x.key@, x.value@));
                            assert(next.drop_last() =~= done);
                            lemma_map_vals_put(
                                m.pairs(),
                                |w: RecordValue| w@,
                                x.key@,
                                x.value,
                            );
                        }
                        m.insert(x.key, x.value);
                    },
                }
                i += 1;
            }
            proof {
                assert(all.take(all.len() as int) =~= all);
            }
            Ok(m)
        },
        _ => Err(clash_text(v, "a sequence")),
    }
}

/// What a map of records holds.
pub open spec fn entries_of(m: &KeyedMap<RecordKey, RecordValue>) -> Entries {
    map_vals(m.pairs(), |w: RecordValue| w@)
}

// ── Planning ───────────────────────────────────────────────────────

/// How much a change to a record of a type in upper case matters: pointing a
/// CNAME elsewhere moves traffic.
pub open spec fn type_severity(action: Action, rtype: Seq<char>) -> ChangeSeverity {
    match action {
        Action::Delete | Action::Replace => ChangeSeverity::Critical,
        Action::Create => ChangeSeverity::Functional,
        Action::Update => if rtype == "CNAME"@ {
            ChangeSeverity::Critical
        } else {
            ChangeSeverity::Functional
        },
        Action::NoOp => ChangeSeverity::Cosmetic,
    }
}

/// How much a change to a record matters, by its type in whatever case.
pub open spec fn severity_of(action: Action, k: KeyV) -> ChangeSeverity {
    type_severity(action, uppered(k.rtype))
}

/// How much a change to a record of a type in upper case matters; see
/// [`type_severity`].
pub fn severity_for_type(action: Action, rtype: &str) -> (r: ChangeSeverity)
    ensures
        r == type_severity(action, rtype@),
{
    match action {
        Action::Delete | Action::Replace => ChangeSeverity::Critical,
        Action::Create => ChangeSeverity::Functional,
        Action::Update => if text::same(rtype, "CNAME") {
            ChangeSeverity::Critical
        } else {
            ChangeSeverity::Functional
        },
        Action::NoOp => ChangeSeverity::Cosmetic,
    }
}

/// How much a change to a record matters; see [`severity_of`].
pub fn dns_severity(action: Action, k: &RecordKey) -> (r: ChangeSeverity)
    ensures
        r == severity_of(action, k@),
{
    severity_for_type(action, text::upper(k.rtype.as_str()).as_str())
}

/// A change to a record.
pub open spec fn record_change(action: Action, k: KeyV, before: Option<ValueV>, after: Option<ValueV>) -> ChangeV {
    ChangeV {
        address: key_address(k),
        action,
        severity: severity_of(action, k),
        before: value_held(before),
        after: value_held(after),
    }
}

pub open spec fn value_held(v: Option<ValueV>) -> Option<JsonV> {
    match v {
        Some(x) => Some(value_json(x)),
        None => None,
    }
}

/// The differences between the records that are there and those that are
/// wanted, in the order of zone, name and type.
pub open spec fn dns_differences(have: Entries, want: Entries) -> Seq<ChangeV>
    decreases have.len() + want.len(),
{
    if have.len() == 0 && want.len() == 0 {
        Seq::empty()
    } else if have.len() == 0 || (want.len() > 0 && want[0].0.precedes(have[0].0)) {
        seq![record_change(Action::Create, want[0].0, None, Some(want[0].1))] + dns_differences(
            have,
            want.drop_first(),
        )
    } else if want.len() == 0 || have[0].0 != want[0].0 {
        seq![record_change(Action::Delete, have[0].0, Some(have[0].1), None)] + dns_differences(
            have.drop_first(),
            want,
        )
    } else {
        let rest = dns_differences(have.drop_first(), want.drop_first());
        if have[0].1 == want[0].1 {
            rest
        } else {
            seq![record_change(Action::Update, have[0].0, Some(have[0].1), Some(want[0].1))] + rest
        }
    }
}

/// The changes between two lists of records.
pub open spec fn dns_changes(config: JsonV, state: JsonV) -> Result<Seq<ChangeV>, ReconcilerErrorV> {
    match records_of(config) {
        Err(e) => Err(ReconcilerErrorV::ComputePlan("config: "@ + e)),
        Ok(want) => match records_of(state) {
            Err(e) => Err(ReconcilerErrorV::ComputePlan("state: "@ + e)),
            Ok(have) => Ok(dns_differences(indexed(have), indexed(want))),
        },
    }
}

/// The differences between two maps of records; see [`dns_differences`].
fn diff_records(
    current: &KeyedMap<RecordKey, RecordValue>,
    desired: &KeyedMap<RecordKey, RecordValue>,
) -> (r: Vec<Change>)
    ensures
        changes_view(r@) == dns_differences(entries_of(current), entries_of(desired)),
{
    let ghost h = entries_of(current);
    let ghost w = entries_of(desired);
    let mut out: Vec<Change> = Vec::new();
    let mut i: usize = 0;
    let mut j: usize = 0;
    proof {
        assert(h.skip(0) =~= h);
        assert(w.skip(0) =~= w);
        assert(changes_view(out@) + dns_differences(h, w) =~= dns_differences(h, w));
    }
    while i < current.entries.len() || j < desired.entries.len()
        invariant
            i <= current.entries@.len(),
            j <= desired.entries@.len(),
            h == entries_of(current),
            w == entries_of(desired),
            changes_view(out@) + dns_differences(h.skip(i as int), w.skip(j as int)) == dns_differences(
                h,
                w,
            ),
        decreases current.entries.len() - i + desired.entries.len() - j,
    {
        let ghost hs = h.skip(i as int);
        let ghost ws = w.skip(j as int);
        let ghost done = changes_view(out@);
        proof {
            if i < h.len() {
                assert(hs[0] == (current.entries@[i as int].0@, current.entries@[i as int].1@));
                assert(hs.drop_first() =~= h.skip(i + 1));
            }
            if j < w.len() {
                assert(ws[0] == (desired.entries@[j as int].0@, desired.entries@[j as int].1@));
                assert(ws.drop_first() =~= w.skip(j + 1));
            }
        }
        let fresh: Option<Change>;
        if i == current.entries.len() || (j < desired.entries.len() && desired.entries[j].0.is_before(
            &current.entries[i].0,
        )) {
            let e = &desired.entries[j];
            let c = change_with_severity(
                e.0.address().as_str(),
                Action::Create,
                dns_severity(Action::Create, &e.0),
                None,
                Some(e.1.to_json()),
            );
            proof {
                let rest = dns_differences(hs, ws.drop_first());
                assert(done.push(c@) + rest =~= done + (seq![c@] + rest));
            }
            fresh = Some(c);
            j += 1;
        } else if j == desired.entries.len() || !current.entries[i].0.is_same(&desired.entries[j].0) {
            let e = &current.entries[i];
            let c = change_with_severity(
                e.0.address().as_str(),
                Action::Delete,
                dns_severity(Action::Delete, &e.0),
                Some(e.1.to_json()),
                None,
            );
            proof {
                let rest = dns_differences(hs.drop_first(), ws);
                assert(done.push(c@) + rest =~= done + (seq![c@] + rest));
            }
            fresh = Some(c);
            i += 1;
        } else {
            let a = &current.entries[i];
            let b = &desired.entries[j];
            if a.1.same_as(&b.1) {
                fresh = None;
            } else {
                let c = change_with_severity(
                    a.0.address().as_str(),
                    Action::Update,
                    dns_severity(Action::Update, &a.0),
                    Some(a.1.to_json()),
                    Some(b.1.to_json()),
                );
                proof {
                    let rest = dns_differences(hs.drop_first(), ws.drop_first());
                    assert(done.push(c@) + rest =~= done + (seq![c@] + rest));
                }
                fresh = Some(c);
            }
            i += 1;
            j += 1;
        }
        match fresh {
            Some(c) => {
                out.push(c);
                proof {
                    assert(changes_view(out@) =~= done.push(c@));
                }
            },
            None => {},
        }
    }
    proof {
        assert(changes_view(out@) + dns_differences(h.skip(i as int), w.skip(j as int))
            =~= changes_view(out@));
    }
    out
}

// ── A client in memory ─────────────────────────────────────────────

/// Records in memory.
#[derive(Debug)]
pub struct MockDnsClient {
    state: KeyedMap<RecordKey, RecordValue>,
}

/// Records of a list, by what they hold.
pub open spec fn list_entries(rs: Seq<Record>) -> Entries {
    Seq::new(rs.len(), |i: int| (rs[i].key@, rs[i].value@))
}

impl Default for MockDnsClient {
    fn default() -> (r: Self)
        ensures
            r.records() == Seq::<(KeyV, ValueV)>::empty(),
            r.wf(),
    {
        MockDnsClient::new()
    }
}

impl MockDnsClient {
    /// The records that are there.
    pub closed spec fn records(&self) -> Entries {
        entries_of(&self.state)
    }

    /// They are in the order of their keys.
    pub open spec fn wf(&self) -> bool {
        sorted(self.records())
    }

    /// No records.
    pub fn new() -> (r: Self)
        ensures
            r.records() == Seq::<(KeyV, ValueV)>::empty(),
            r.wf(),
    {
        let r = MockDnsClient { state: KeyedMap::new() };
        proof {
            assert(r.records() =~= Seq::<(KeyV, ValueV)>::empty());
        }
        r
    }

    /// These records; of two with one key the later one stays.
    pub fn with_records(records: &Vec<Record>) -> (r: Self)
        ensures
            r.records() == indexed(list_entries(records@)),
            r.wf(),
    {
        let mut r = MockDnsClient::new();
        let ghost all = list_entries(records@);
        let mut i: usize = 0;
        proof {
            assert(all.take(0) =~= Seq::empty());
        }
        while i < records.len()
            invariant
                i <= records@.len(),
                all == list_entries(records@),
                r.records() == collect(all.take(i as int)),
                r.wf(),
            decreases records.len() - i,
        {
            proof {
                assert(all.take(i + 1).drop_last() =~= all.take(i as int));
                assert(all.take(i + 1).last() == all[i as int]);
            }
            let _ = r.create_record(&records[i]);
            i += 1;
        }
        proof {
            assert(all.take(all.len() as int) =~= all);
        }
        r
    }

    /// The records, in the order of their keys.
    pub fn list_records(&self) -> (r: Result<Vec<Record>, String>)
        ensures
            r matches Ok(rs) && list_entries(rs@) == self.records(),
    {
        let mut out: Vec<Record> = Vec::new();
        let mut i: usize = 0;
        while i < self.state.entries.len()
            invariant
                i <= self.state.entries@.len(),
                out@.len() == i,
                forall|j: int|
                    0 <= j < i ==> (#[trigger] out@[j]).key@ == self.state.entries@[j].0@
                        && out@[j].value@ == self.state.entries@[j].1@,
            decreases self.state.entries.len() - i,
        {
            let e = &self.state.entries[i];
            out.push(Record { key: e.0.clone(), value: e.1.clone() });
            i += 1;
        }
        proof {
            assert(list_entries(out@) =~= self.records());
        }
        Ok(out)
    }

    /// A copy of the records.
    pub fn snapshot(&self) -> (r: KeyedMap<RecordKey, RecordValue>)
        ensures
            entries_of(&r) == self.records(),
    {
        let mut out: Vec<(RecordKey, RecordValue)> = Vec::new();
        let mut i: usize = 0;
        while i < self.state.entries.len()
            invariant
                i <= self.state.entries@.len(),
                out@.len() == i,
                forall|j: int|
                    0 <= j < i ==> (#[trigger] out@[j]).0@ == self.state.entries@[j].0@ && out@[j].1@
                        == self.state.entries@[j].1@,
            decreases self.state.entries.len() - i,
        {
            let e = &self.state.entries[i];
            out.push((e.0.clone(), e.1.clone()));
            i += 1;
        }
        let r = KeyedMap { entries: out };
        proof {
            assert(entries_of(&r) =~= self.records());
        }
        r
    }

    pub fn create_record(&mut self, r: &Record) -> (res: Result<(), String>)
        ensures
            res is Ok,
            final(self).records() == put(old(self).records(), r.key@, r.value@),
            old(self).wf() ==> final(self).wf(),
    {
        let v = r.value.clone();
        proof {
            lemma_map_vals_put(self.state.pairs(), |w: RecordValue| w@, r.key@, v);
            if self.wf() {
                lemma_put_sorted(self.records(), r.key@, r.value@);
            }
        }
        self.state.insert(r.key.clone(), v);
        Ok(())
    }

    pub fn update_record(&mut self, r: &Record) -> (res: Result<(), String>)
        ensures
            res is Ok,
            final(self).records() == put(old(self).records(), r.key@, r.value@),
            old(self).wf() ==> final(self).wf(),
    {
        self.create_record(r)
    }

    pub fn delete_record(&mut self, k: &RecordKey) -> (res: Result<(), String>)
        ensures
            res is Ok,
            final(self).records() == erase(old(self).records(), k@),
            old(self).wf() ==> final(self).wf(),
    {
        proof {
            if self.wf() {
                lemma_erase_sorted(self.records(), k@);
            }
            lemma_map_vals_erase(self.state.pairs(), |w: RecordValue| w@, k@);
        }
        let _ = self.state.remove(k);
        Ok(())
    }
}

// ── Carrying changes out ───────────────────────────────────────────

/// A call to whatever keeps the records.
#[derive(Debug)]
pub enum DnsCall {
    Create(Record),
    Update(Record),
    Delete(RecordKey),
}

/// What a [`DnsCall`] asks for.
#[verifier::ext_equal]
pub enum DnsCallV {
    Create(KeyV, ValueV),
    Update(KeyV, ValueV),
    Delete(KeyV),
}

impl View for DnsCall {
    type V = DnsCallV;

    open spec fn view(&self) -> DnsCallV {
        match self {
            DnsCall::Create(r) => DnsCallV::Create(r.key@, r.value@),
            DnsCall::Update(r) => DnsCallV::Update(r.key@, r.value@),
            DnsCall::Delete(k) => DnsCallV::Delete(k@),
        }
    }
}

/// How a change to a record is carried out: not at all, by a call, or with a
/// fault. What the change holds is read before its address.
pub open spec fn dns_step(c: ChangeV) -> Option<Result<DnsCallV, Seq<char>>> {
    match c.action {
        Action::NoOp => None,
        Action::Delete => Some(
            match key_at(c.address) {
                Some(k) => Ok(DnsCallV::Delete(k)),
                None => Err("bad address: "@ + c.address),
            },
        ),
        _ => Some(
            match c.after {
                None => Err("missing after"@),
                Some(v) => match value_of(v) {
                    Err(e) => Err("decode after: "@ + e),
                    Ok(value) => match key_at(c.address) {
                        None => Err("bad address: "@ + c.address),
                        Some(k) => Ok(
                            if c.action == Action::Create {
                                DnsCallV::Create(k, value)
                            } else {
                                DnsCallV::Update(k, value)
                            },
                        ),
                    },
                },
            },
        ),
    }
}

pub open spec fn dns_step_view(s: Option<Result<DnsCall, String>>) -> Option<Result<DnsCallV, Seq<char>>> {
    match s {
        None => None,
        Some(Ok(call)) => Some(Ok(call@)),
        Some(Err(e)) => Some(Err(e@)),
    }
}

/// Decide how a change to a record is carried out; see [`dns_step`].
pub fn next_call(c: &Change) -> (r: Option<Result<DnsCall, String>>)
    ensures
        dns_step_view(r) == dns_step(c@),
{
    match c.action {
        Action::NoOp => None,
        Action::Delete => Some(
            match parse_address(c.address.as_str()) {
                Some(k) => Ok(DnsCall::Delete(k)),
                None => Err(text::join2("bad address: ", c.address.as_str())),
            },
        ),
        _ => Some(
            match &c.after {
                None => Err("missing after".to_owned()),
                Some(v) => match RecordValue::from_json(v) {
                    Err(e) => Err(text::join2("decode after: ", e.as_str())),
                    Ok(value) => match parse_address(c.address.as_str()) {
                        None => Err(text::join2("bad address: ", c.address.as_str())),
                        Some(key) => {
                            let rec = Record { key, value };
                            Ok(
                                if c.action == Action::Create {
                                    DnsCall::Create(rec)
                                } else {
                                    DnsCall::Update(rec)
                                },
                            )
                        },
                    },
                },
            },
        ),
    }
}

/// What a call makes of the records.
pub open spec fn dns_called(es: Entries, call: DnsCallV) -> Entries {
    match call {
        DnsCallV::Create(k, v) => put(es, k, v),
        DnsCallV::Update(k, v) => put(es, k, v),
        DnsCallV::Delete(k) => erase(es, k),
    }
}

/// The rule by which the client in memory carries changes out.
#[verifier::opaque]
pub open spec fn dns_rule() -> spec_fn(Entries, ChangeV) -> (Entries, Verdict) {
    |es: Entries, c: ChangeV|
        match dns_step(c) {
            None => (es, None),
            Some(Ok(call)) => (dns_called(es, call), Some(Ok(()))),
            Some(Err(e)) => (es, Some(Err(e))),
        }
}

impl MockDnsClient {
    /// Carry a call out.
    pub fn perform(&mut self, call: &DnsCall) -> (r: Result<(), String>)
        ensures
            r is Ok,
            final(self).records() == dns_called(old(self).records(), call@),
            old(self).wf() ==> final(self).wf(),
    {
        match call {
            DnsCall::Create(r) => self.create_record(r),
            DnsCall::Update(r) => self.update_record(r),
            DnsCall::Delete(k) => self.delete_record(k),
        }
    }
}

/// Reconciles DNS records.
#[derive(Debug)]
pub struct DnsRecordReconciler<C> {
    client: C,
}

impl<C> DnsRecordReconciler<C> {
    pub closed spec fn held_client(&self) -> C {
        self.client
    }

    pub fn new(client: C) -> (r: Self)
        ensures
            r.held_client() == client,
    {
        DnsRecordReconciler { client }
    }

    pub fn client(&self) -> (r: &C)
        ensures
            *r == self.held_client(),
    {
        &self.client
    }
}

/// Records as JSON.
fn records_to_json(rs: &Vec<Record>) -> (r: Json)
    ensures
        r@ == entries_json(list_entries(rs@)),
{
    let mut out: Vec<Json> = Vec::new();
    let mut i: usize = 0;
    while i < rs.len()
        invariant
            i <= rs@.len(),
            out@.len() == i,
            forall|j: int| 0 <= j < i ==> (#[trigger] out@[j])@ == record_json(rs@[j].key@, rs@[j].value@),
        decreases rs.len() - i,
    {
        out.push(rs[i].to_json());
        i += 1;
    }
    proof {
        lemma_array_view(out);
        assert(list_view(out@) =~= entries_json(list_entries(rs@))->Array_0);
    }
    Json::Array(out)
}

/// The plan that brings records from a state to a configuration.
pub fn plan(config: &Json, state: &Json) -> (r: Result<Plan, ReconcilerError>)
    ensures
        planned(r, "dns_record"@, dns_changes(config@, state@)),
{
    match read_records(config) {
        Err(e) => Err(ReconcilerError::ComputePlan(text::join2("config: ", e.as_str()))),
        Ok(want) => match read_records(state) {
            Err(e) => Err(ReconcilerError::ComputePlan(text::join2("state: ", e.as_str()))),
            Ok(have) => Ok(Plan::new("dns_record", diff_records(&have, &want))),
        },
    }
}

impl Reconciler for DnsRecordReconciler<MockDnsClient> {
    open spec fn label(&self) -> Seq<char> {
        "dns_record"@
    }

    open spec fn observed(&self) -> Result<JsonV, ReconcilerErrorV> {
        Ok(entries_json(self.held_client().records()))
    }

    open spec fn changes(&self, config: JsonV, state: JsonV) -> Result<Seq<ChangeV>, ReconcilerErrorV> {
        dns_changes(config, state)
    }

    open spec fn carries(
        &self,
        changes: Seq<ChangeV>,
        left: Self,
        applied: Seq<ResultV>,
        failed: Seq<ResultV>,
    ) -> bool {
        run(dns_rule(), self.held_client().records(), changes) == (
            left.held_client().records(),
            applied,
            failed,
        )
    }

    /// Never: a change that cannot be carried out is listed among the failed.
    open spec fn fails(&self, changes: Seq<ChangeV>, left: Self, e: ReconcilerErrorV) -> bool {
        false
    }

    fn kind(&self) -> (r: &'static str) {
        "dns_record"
    }

    fn read_state(&self) -> (r: Result<Json, ReconcilerError>) {
        match self.client.list_records() {
            Ok(rs) => Ok(records_to_json(&rs)),
            Err(e) => Err(ReconcilerError::ReadState(e)),
        }
    }

    fn compute_plan(&self, config: &Json, state: &Json) -> (r: Result<Plan, ReconcilerError>) {
        plan(config, state)
    }

    fn apply(&mut self, plan: &Plan) -> (r: Result<Outcome, ReconcilerError>)
        ensures
            r is Ok,
            old(self).held_client().wf() ==> final(self).held_client().wf(),
    {
        let started_at = time::now();
        let ghost orderly = self.client.wf();
        let ghost cs = plan@.changes;
        let ghost start = self.client.records();
        let mut applied: Vec<AppliedChange> = Vec::new();
        let mut failed: Vec<FailedChange> = Vec::new();
        let mut i: usize = 0;
        proof {
            lemma_run_start(dns_rule(), start, cs);
            assert(applied_view(applied@) =~= Seq::empty());
            assert(failed_view(failed@) =~= Seq::empty());
        }
        while i < plan.changes.len()
            invariant
                i <= plan.changes@.len(),
                cs == plan@.changes,
                on_course(
                    dns_rule(),
                    start,
                    cs,
                    i as int,
                    self.client.records(),
                    applied_view(applied@),
                    failed_view(failed@),
                ),
                orderly ==> self.client.wf(),
            decreases plan.changes.len() - i,
        {
            let c = &plan.changes[i];
            proof {
                assert(cs[i as int] == c@);
                reveal(dns_rule);
                lemma_run_step(
                    dns_rule(),
                    start,
                    cs,
                    i as int,
                    self.client.records(),
                    applied_view(applied@),
                    failed_view(failed@),
                );
            }
            match next_call(c) {
                None => {},
                Some(Ok(call)) => {
                    let res = self.client.perform(&call);
                    record(c, res, &mut applied, &mut failed);
                },
                Some(Err(e)) => {
                    record(c, Err(e), &mut applied, &mut failed);
                },
            }
            i += 1;
        }
        proof {
            lemma_run_end(
                dns_rule(),
                start,
                cs,
                self.client.records(),
                applied_view(applied@),
                failed_view(failed@),
            );
        }
        Ok(build_outcome(plan, applied, failed, started_at))
    }
}

// ── Convergence ────────────────────────────────────────────────────

/// A key comes back from its address.
#[verifier::opaque]
pub open spec fn comes_back(k: KeyV) -> bool {
    key_at(key_address(k)) == Some(k)
}

/// Every key comes back from its address.
pub open spec fn addressable(es: Entries) -> bool {
    forall|i: int| #![trigger es[i]] 0 <= i < es.len() ==> comes_back(es[i].0)
}

proof fn lemma_addressable_tail(es: Entries)
    requires
        addressable(es),
        es.len() > 0,
    ensures
        addressable(es.drop_first()),
        comes_back(es[0].0),
{
    assert forall|i: int| #![trigger es.drop_first()[i]] 0 <= i < es.drop_first().len() implies comes_back(
        es.drop_first()[i].0,
    ) by {
        assert(es.drop_first()[i] == es[i + 1]);
    }
}

/// A change that is carried out, and then the rest.
proof fn lemma_run_cons(s: Entries, c: ChangeV, t: Entries, rest: Seq<ChangeV>)
    requires
        dns_rule()(s, c) == (t, Some(Ok::<(), Seq<char>>(()))),
    ensures
        run(dns_rule(), s, seq![c] + rest).0 == run(dns_rule(), t, rest).0,
        run(dns_rule(), s, seq![c] + rest).2 == run(dns_rule(), t, rest).2,
{
    assert((seq![c] + rest).drop_first() =~= rest);
}

/// A creation or an update writes the record.
proof fn lemma_write_step(s: Entries, action: Action, e: (KeyV, ValueV), before: Option<ValueV>)
    requires
        action == Action::Create || action == Action::Update,
        comes_back(e.0),
    ensures
        dns_rule()(s, record_change(action, e.0, before, Some(e.1))) == (
            put(s, e.0, e.1),
            Some(Ok::<(), Seq<char>>(())),
        ),
{
    reveal(dns_rule);
    reveal(comes_back);
    lemma_value_reads_back(e.1);
}

/// A deletion removes the record.
proof fn lemma_delete_step(s: Entries, e: (KeyV, ValueV))
    requires
        comes_back(e.0),
    ensures
        dns_rule()(s, record_change(Action::Delete, e.0, Some(e.1), None)) == (
            erase(s, e.0),
            Some(Ok::<(), Seq<char>>(())),
        ),
{
    reveal(dns_rule);
    reveal(comes_back);
}

/// A record that is only wanted is written between what is done and what is
/// to come.
proof fn lemma_create_place<K: Linear, V>(done: Seq<(K, V)>, have: Seq<(K, V)>, want: Seq<(K, V)>)
    requires
        sorted(done + have),
        sorted(done + want),
        want.len() > 0,
        have.len() > 0 ==> want[0].0.precedes(have[0].0),
    ensures
        put(done + have, want[0].0, want[0].1) == done.push(want[0]) + have,
        sorted(done.push(want[0]) + have),
        sorted(done.push(want[0]) + want.drop_first()),
{
    let e = want[0];
    let n = done.len() as int;
    let s = done + have;
    lemma_below(done, want);
    assert forall|j: int| 0 <= j < n implies (#[trigger] s[j]).0.precedes(e.0) by {
        assert(s[j] == done[j]);
    }
    if have.len() > 0 {
        assert(s[n] == have[0]);
        lemma_asymmetric(e.0, have[0].0);
    }
    lemma_put_at(s, e.0, e.1, n);
    assert(s.insert(n, e) =~= done.push(e) + have);
    assert(done.push(e) + want.drop_first() =~= done + want);
    lemma_between(done, e, have);
}

/// A record that is only there is removed from between what is done and what
/// is to come.
proof fn lemma_delete_place<K: Linear, V>(done: Seq<(K, V)>, have: Seq<(K, V)>)
    requires
        sorted(done + have),
        have.len() > 0,
    ensures
        erase(done + have, have[0].0) == done + have.drop_first(),
        sorted(done + have.drop_first()),
{
    let e = have[0];
    let n = done.len() as int;
    let s = done + have;
    lemma_below(done, have);
    assert(s[n] == e);
    assert forall|j: int| 0 <= j < n implies (#[trigger] s[j]).0 != e.0 by {
        assert(s[j] == done[j]);
        Linear::irreflexive(e.0);
    }
    lemma_erase_at(s, e.0, n);
    assert(s.remove(n) =~= done + have.drop_first());
    lemma_without(done, have);
}

/// A record that is there and wanted is written over.
proof fn lemma_update_place<K: Linear, V>(done: Seq<(K, V)>, have: Seq<(K, V)>, want: Seq<(K, V)>)
    requires
        sorted(done + have),
        sorted(done + want),
        have.len() > 0,
        want.len() > 0,
        have[0].0 == want[0].0,
    ensures
        put(done + have, want[0].0, want[0].1) == done.push(want[0]) + have.drop_first(),
        sorted(done.push(want[0]) + have.drop_first()),
        sorted(done.push(want[0]) + want.drop_first()),
        have[0] == want[0] ==> done + have == done.push(want[0]) + have.drop_first(),
{
    let b = want[0];
    let n = done.len() as int;
    let s = done + have;
    lemma_below(done, have);
    assert(s[n] == have[0]);
    assert forall|j: int| 0 <= j < n implies (#[trigger] s[j]).0.precedes(b.0) by {
        assert(s[j] == done[j]);
    }
    Linear::irreflexive(b.0);
    lemma_put_at(s, b.0, b.1, n);
    assert(s.update(n, b) =~= done.push(b) + have.drop_first());
    assert(done.push(b) + want.drop_first() =~= done + want);
    lemma_same_keys(done, b, have);
    if have[0] == want[0] {
        assert(done + have =~= done.push(b) + have.drop_first());
    }
}

/// Carrying the differences out from a point on brings what comes behind it
/// to what is wanted.
proof fn lemma_dns_run(done: Entries, have: Entries, want: Entries)
    requires
        sorted(done + have),
        sorted(done + want),
        addressable(have),
        addressable(want),
    ensures
        run(dns_rule(), done + have, dns_differences(have, want)).0 == done + want,
        run(dns_rule(), done + have, dns_differences(have, want)).2.len() == 0,
    decreases have.len() + want.len(),
{
    let s = done + have;
    if have.len() == 0 && want.len() == 0 {
        assert(done + have =~= done + want);
    } else if have.len() == 0 || (want.len() > 0 && want[0].0.precedes(have[0].0)) {
        let e = want[0];
        lemma_addressable_tail(want);
        lemma_create_place(done, have, want);
        lemma_dns_run(done.push(e), have, want.drop_first());
        lemma_write_step(s, Action::Create, e, None);
        lemma_run_cons(
            s,
            record_change(Action::Create, e.0, None, Some(e.1)),
            put(s, e.0, e.1),
            dns_differences(have, want.drop_first()),
        );
        assert(done.push(e) + want.drop_first() =~= done + want);
    } else if want.len() == 0 || have[0].0 != want[0].0 {
        let e = have[0];
        lemma_addressable_tail(have);
        lemma_delete_place(done, have);
        lemma_dns_run(done, have.drop_first(), want);
        lemma_delete_step(s, e);
        lemma_run_cons(
            s,
            record_change(Action::Delete, e.0, Some(e.1), None),
            erase(s, e.0),
            dns_differences(have.drop_first(), want),
        );
    } else {
        let b = want[0];
        lemma_addressable_tail(have);
        lemma_addressable_tail(want);
        lemma_update_place(done, have, want);
        lemma_dns_run(done.push(b), have.drop_first(), want.drop_first());
        assert(done.push(b) + want.drop_first() =~= done + want);
        if have[0].1 != b.1 {
            lemma_write_step(s, Action::Update, b, Some(have[0].1));
            lemma_run_cons(
                s,
                record_change(Action::Update, b.0, Some(have[0].1), Some(b.1)),
                put(s, b.0, b.1),
                dns_differences(have.drop_first(), want.drop_first()),
            );
        } else {
            assert(have[0] == want[0]);
        }
    }
}

/// In `done + rest` every key of `done` is below the first of `rest`.
proof fn lemma_below<K: Linear, V>(done: Seq<(K, V)>, rest: Seq<(K, V)>)
    requires
        sorted(done + rest),
        rest.len() > 0,
    ensures
        forall|j: int| 0 <= j < done.len() ==> (#[trigger] done[j]).0.precedes(rest[0].0),
{
    let a = done + rest;
    assert(a[done.len() as int] == rest[0]);
    assert forall|j: int| 0 <= j < done.len() implies (#[trigger] done[j]).0.precedes(rest[0].0) by {
        assert(a[j] == done[j]);
    }
}

/// Leaving out the head of the second part keeps the order.
proof fn lemma_without<K: Linear, V>(done: Seq<(K, V)>, rest: Seq<(K, V)>)
    requires
        sorted(done + rest),
        rest.len() > 0,
    ensures
        sorted(done + rest.drop_first()),
{
    let a = done + rest;
    let b = done + rest.drop_first();
    assert forall|i: int, j: int| #![trigger b[i], b[j]] 0 <= i < j < b.len() implies b[i].0.precedes(
        b[j].0,
    ) by {
        let ai = if i < done.len() {
            i
        } else {
            i + 1
        };
        let aj = if j < done.len() {
            j
        } else {
            j + 1
        };
        assert(b[i] == a[ai] && b[j] == a[aj]);
    }
}

/// An entry set between two parts keeps the order where its key is above the
/// first and below the second.
proof fn lemma_between<K: Linear, V>(done: Seq<(K, V)>, e: (K, V), rest: Seq<(K, V)>)
    requires
        sorted(done + rest),
        forall|j: int| 0 <= j < done.len() ==> (#[trigger] done[j]).0.precedes(e.0),
        rest.len() > 0 ==> e.0.precedes(rest[0].0),
    ensures
        sorted(done.push(e) + rest),
{
    let a = done + rest;
    let d = done.push(e);
    let b = d + rest;
    assert forall|i: int, j: int| #![trigger b[i], b[j]] 0 <= i < j < b.len() implies b[i].0.precedes(
        b[j].0,
    ) by {
        if j < done.len() {
            assert(b[i] == a[i] && b[j] == a[j]);
        } else if j == done.len() {
            assert(b[i] == done[i] && b[j] == e);
        } else {
            assert(b[j] == a[j - 1]);
            if i < done.len() {
                assert(b[i] == a[i]);
            } else if i == done.len() {
                assert(b[i] == e);
                assert(a[done.len() as int] == rest[0]);
                if j - 1 > done.len() {
                    assert(a[done.len() as int].0.precedes(a[j - 1].0));
                    Linear::transitive(e.0, rest[0].0, a[j - 1].0);
                }
            } else {
                assert(b[i] == a[i - 1]);
            }
        }
    }
}

/// The order rests on the keys alone.
proof fn lemma_same_keys<K: Linear, V>(done: Seq<(K, V)>, e: (K, V), rest: Seq<(K, V)>)
    requires
        sorted(done + rest),
        rest.len() > 0,
        rest[0].0 == e.0,
    ensures
        sorted(done.push(e) + rest.drop_first()),
{
    let s = done + rest;
    let t = done.push(e) + rest.drop_first();
    assert forall|i: int, j: int| #![trigger t[i], t[j]] 0 <= i < j < t.len() implies t[i].0.precedes(
        t[j].0,
    ) by {
        assert(t[i].0 == s[i].0 && t[j].0 == s[j].0);
    }
}

/// Between the same records there is no difference.
proof fn lemma_no_difference(es: Entries)
    ensures
        dns_differences(es, es).len() == 0,
    decreases es.len(),
{
    if es.len() > 0 {
        Linear::irreflexive(es[0].0);
        lemma_no_difference(es.drop_first());
    }
}

/// Applying converges: where every key comes back from its address, carrying
/// out the plan for a list of records fails nowhere and leaves exactly those
/// records, for which the next plan is empty.
pub proof fn law_dns_converges(have: Entries, wanted: Entries)
    requires
        sorted(have),
        addressable(have),
        addressable(indexed(wanted)),
    ensures
        ({
            let cs = dns_changes(entries_json(wanted), entries_json(have));
            let (left, applied, failed) = run(dns_rule(), have, cs->Ok_0);
            cs is Ok && failed.len() == 0 && left == indexed(wanted) && dns_changes(
                entries_json(wanted),
                entries_json(left),
            ) == Ok::<Seq<ChangeV>, ReconcilerErrorV>(Seq::empty())
        }),
{
    let want = indexed(wanted);
    law_records_read_back(wanted);
    law_records_read_back(have);
    crate::ordmap::lemma_collect_sorted(wanted);
    crate::ordmap::lemma_collect_of_sorted(have);
    crate::ordmap::lemma_collect_of_sorted(want);
    let none: Entries = Seq::empty();
    assert(none + have =~= have);
    assert(none + want =~= want);
    lemma_dns_run(none, have, want);
    law_records_read_back(want);
    lemma_no_difference(want);
    assert(dns_differences(want, want) =~= Seq::empty());
}

// ── The differences, key by key ────────────────────────────────────

/// What becomes of the record with one key: it is created where it is only
/// wanted, deleted where it is only there, updated where what it holds
/// differs, and else left alone.
pub open spec fn record_difference(have: Entries, want: Entries, k: KeyV) -> Option<ChangeV> {
    match (lookup(have, k), lookup(want, k)) {
        (None, None) => None,
        (None, Some(w)) => Some(record_change(Action::Create, k, None, Some(w))),
        (Some(h), None) => Some(record_change(Action::Delete, k, Some(h), None)),
        (Some(h), Some(w)) => if h == w {
            None
        } else {
            Some(record_change(Action::Update, k, Some(h), Some(w)))
        },
    }
}

/// A record is known by its zone, name and type: the changes between two sets
/// of records are what becomes of their keys, and nothing else.
pub proof fn law_dns_differences_by_key(have: Entries, want: Entries, c: ChangeV)
    requires
        sorted(have),
        sorted(want),
    ensures
        dns_differences(have, want).contains(c) <==> exists|k: KeyV| #[trigger]
            record_difference(have, want, k) == Some(c),
    decreases have.len() + want.len(),
{
    let all = dns_differences(have, want);
    if have.len() == 0 && want.len() == 0 {
    } else {
        let making = have.len() == 0 || (want.len() > 0 && want[0].0.precedes(have[0].0));
        let ending = !making && (want.len() == 0 || have[0].0 != want[0].0);
        let a = if making {
            have
        } else {
            have.drop_first()
        };
        let b = if ending {
            want
        } else {
            want.drop_first()
        };
        let first = if making {
            want[0].0
        } else {
            have[0].0
        };
        let rest = dns_differences(a, b);
        if !making && !ending {
            assert(have[0].0 == want[0].0);
        }
        if ending && want.len() > 0 {
            Linear::total(have[0].0, want[0].0);
        }
        lemma_rest_sorted(have, a, first);
        lemma_rest_sorted(want, b, first);
        lemma_lookup_early(a, first);
        lemma_lookup_early(b, first);
        law_dns_differences_by_key(a, b, c);
        assert forall|k: KeyV| k != first implies #[trigger] record_difference(a, b, k)
            == record_difference(have, want, k) by {}
        assert(record_difference(a, b, first) is None);
        match record_difference(have, want, first) {
            Some(x) => {
                assert(all =~= seq![x] + rest);
                lemma_contains_first(x, rest, c);
            },
            None => {
                assert(all == rest);
            },
        }
        if rest.contains(c) {
            let k = choose|k: KeyV| #[trigger] record_difference(a, b, k) == Some(c);
            assert(record_difference(have, want, k) == Some(c));
        }
        if exists|k: KeyV| #[trigger] record_difference(have, want, k) == Some(c) {
            let k = choose|k: KeyV| #[trigger] record_difference(have, want, k) == Some(c);
            if k != first {
                assert(record_difference(a, b, k) == Some(c));
            }
        }
    }
}

/// Records are ordered by zone, then name, then type: the first that differs
/// decides.
pub proof fn law_first_part_decides(a: KeyV, b: KeyV)
    ensures
        a.zone != b.zone ==> (key_before(a, b) <==> lex_lt(a.zone, b.zone)),
        a.zone == b.zone && a.name != b.name ==> (key_before(a, b) <==> lex_lt(a.name, b.name)),
        a.zone == b.zone && a.name == b.name ==> (key_before(a, b) <==> lex_lt(a.rtype, b.rtype)),
{
    reveal(key_before);
    text::lemma_lex_irreflexive(a.zone);
    text::lemma_lex_irreflexive(a.name);
}

proof fn lemma_list_gathers(xs: Seq<JsonV>, n: int)
    requires
        0 <= n <= xs.len(),
    ensures
        gather::gathered(list_of(xs.take(n)), n, |i: int| record_of(xs[i])),
    decreases n,
{
    if n > 0 {
        lemma_list_gathers(xs, n - 1);
        let b = xs.take(n);
        assert(b.drop_last() =~= xs.take(n - 1));
        gather::lemma_gathered_push(
            list_of(xs.take(n - 1)),
            list_of(b),
            n - 1,
            |i: int| record_of(xs[i]),
        );
    }
}

/// Records are read one by one and in order; the first that cannot be is the
/// error of the whole. Nothing but a list holds records.
pub proof fn law_records_are_read_one_by_one(v: JsonV)
    ensures
        !(v is Array) ==> records_of(v) is Err,
        v matches JsonV::Array(xs) ==> gather::gathered(
            records_of(v),
            xs.len() as int,
            |i: int| record_of(xs[i]),
        ),
{
    if let JsonV::Array(xs) = v {
        lemma_list_gathers(xs, xs.len() as int);
        assert(xs.take(xs.len() as int) =~= xs);
    }
}

/// A key and a value are read by the names of their members; what does not say
/// so is not proxied.
pub proof fn law_records_by_name(m: Seq<(Seq<char>, JsonV)>)
    ensures
        key_of(JsonV::Object(m)) matches Ok(k) ==> {
            &&& lookup(m, "zone"@) == Some(JsonV::String(k.zone))
            &&& lookup(m, "name"@) == Some(JsonV::String(k.name))
            &&& lookup(m, "type"@) == Some(JsonV::String(k.rtype))
        },
        value_of(JsonV::Object(m)) matches Ok(v) ==> {
            &&& lookup(m, "value"@) == Some(JsonV::String(v.value))
            &&& lookup(m, "ttl"@) == Some(JsonV::Number(Number::PosInt(v.ttl as u64)))
            &&& v.proxied <==> lookup(m, "proxied"@) == Some(JsonV::Bool(true))
        },
        record_of(JsonV::Object(m)) matches Ok(r) ==> {
            &&& lookup(m, "key"@) is Some
            &&& lookup(m, "value"@) is Some
            &&& key_of(lookup(m, "key"@)->Some_0) == Ok::<KeyV, Seq<char>>(r.0)
            &&& value_of(lookup(m, "value"@)->Some_0) == Ok::<ValueV, Seq<char>>(r.1)
        },
{
    let v = JsonV::Object(m);
    let ks = key_fields();
    let vs = value_fields();
    let rs = record_fields();
    reveal_strlit("zone");
    reveal_strlit("name");
    reveal_strlit("type");
    reveal_strlit("value");
    reveal_strlit("ttl");
    reveal_strlit("proxied");
    reveal_strlit("key");
    assert("zone"@[0] == 'z' && "name"@[0] == 'n' && "type"@[0] == 't');
    assert(ks[0].name@ == "zone"@ && ks[1].name@ == "name"@ && ks[2].name@ == "type"@);
    assert(vs[0].name@ == "value"@ && vs[1].name@ == "ttl"@ && vs[2].name@ == "proxied"@);
    assert(rs[0].name@ == "key"@ && rs[1].name@ == "value"@);
    decode::law_first_field_of_a_name(ks, 0, "zone"@);
    decode::law_first_field_of_a_name(ks, 1, "name"@);
    decode::law_first_field_of_a_name(ks, 2, "type"@);
    decode::law_first_field_of_a_name(vs, 0, "value"@);
    decode::law_first_field_of_a_name(vs, 1, "ttl"@);
    decode::law_first_field_of_a_name(vs, 2, "proxied"@);
    decode::law_first_field_of_a_name(rs, 0, "key"@);
    decode::law_first_field_of_a_name(rs, 1, "value"@);
    if record_fault("RecordKey"@, ks, v) is None {
        decode::lemma_part_shape("RecordKey"@, ks, v, 0);
        decode::lemma_part_shape("RecordKey"@, ks, v, 1);
        decode::lemma_part_shape("RecordKey"@, ks, v, 2);
    }
    if record_fault("RecordValue"@, vs, v) is None {
        decode::lemma_part_shape("RecordValue"@, vs, v, 0);
        decode::lemma_part_shape("RecordValue"@, vs, v, 1);
        decode::lemma_part_shape("RecordValue"@, vs, v, 2);
    }
    if record_fault("Record"@, rs, v) is None {
        decode::lemma_part_shape("Record"@, rs, v, 0);
        decode::lemma_part_shape("Record"@, rs, v, 1);
    }
}

/// Taking a record away is critical, and so is altering an alias; any other
/// change of a record is functional.
pub proof fn law_aliases_are_critical(action: Action, rtype: Seq<char>)
    ensures
        type_severity(action, rtype) == ChangeSeverity::Critical <==> action == Action::Delete || action
            == Action::Replace || (action == Action::Update && rtype == "CNAME"@),
        type_severity(action, rtype) == ChangeSeverity::Cosmetic <==> action == Action::NoOp,
{
}

/// The change of a record tells its address, what was there and what is
/// wanted.
pub proof fn law_record_changes_are_told(
    action: Action,
    k: KeyV,
    before: Option<ValueV>,
    after: Option<ValueV>,
)
    ensures
        record_change(action, k, before, after).address == joined(k.zone, k.name, lowered(k.rtype)),
        record_change(action, k, before, after).action == action,
        record_change(action, k, before, after).severity == type_severity(action, uppered(k.rtype)),
        before matches Some(v) ==> record_change(action, k, before, after).before == Some(
            value_json(v),
        ),
        after matches Some(v) ==> record_change(action, k, before, after).after == Some(value_json(v)),
        before is None ==> record_change(action, k, before, after).before is None,
        after is None ==> record_change(action, k, before, after).after is None,
{
}

/// A change of a record is one call on the record of its address: a deletion
/// deletes, a creation creates, and what alters or replaces updates. Without a
/// readable address, or a readable value to write, there is none but a fault.
pub proof fn law_dns_steps(c: ChangeV)
    ensures
        dns_step(c) is None <==> c.action == Action::NoOp,
        c.action == Action::Delete ==> match key_at(c.address) {
            Some(k) => dns_step(c) == Some(Ok::<DnsCallV, Seq<char>>(DnsCallV::Delete(k))),
            None => dns_step(c) is Some && dns_step(c)->Some_0 is Err,
        },
        c.action == Action::Create || c.action == Action::Update || c.action == Action::Replace ==> {
            let ready = key_at(c.address) is Some && c.after is Some && value_of(
                c.after->Some_0,
            ) is Ok;
            let k = key_at(c.address)->Some_0;
            let v = value_of(c.after->Some_0)->Ok_0;
            &&& !ready ==> dns_step(c) is Some && dns_step(c)->Some_0 is Err
            &&& ready && c.action == Action::Create ==> dns_step(c) == Some(
                Ok::<DnsCallV, Seq<char>>(DnsCallV::Create(k, v)),
            )
            &&& ready && c.action != Action::Create ==> dns_step(c) == Some(
                Ok::<DnsCallV, Seq<char>>(DnsCallV::Update(k, v)),
            )
        },
{
}

/// A call writes or takes away the record that it names, and touches no other.
pub proof fn law_dns_calls_touch_one(es: Entries, k: KeyV, v: ValueV, other: KeyV)
    requires
        sorted(es),
    ensures
        lookup(dns_called(es, DnsCallV::Create(k, v)), k) == Some(v),
        lookup(dns_called(es, DnsCallV::Update(k, v)), k) == Some(v),
        lookup(dns_called(es, DnsCallV::Delete(k)), k) is None,
        other != k ==> {
            &&& lookup(dns_called(es, DnsCallV::Create(k, v)), other) == lookup(es, other)
            &&& lookup(dns_called(es, DnsCallV::Update(k, v)), other) == lookup(es, other)
            &&& lookup(dns_called(es, DnsCallV::Delete(k)), other) == lookup(es, other)
        },
{
    crate::ordmap::lemma_put_lookup(es, k, v, k);
    crate::ordmap::lemma_put_lookup(es, k, v, other);
    crate::ordmap::lemma_erase_lookup(es, k, k);
    crate::ordmap::lemma_erase_lookup(es, k, other);
}

/// The changes of a zone file in two parts, the keys of the first before those
/// of the second, are those of the first part and then those of the second.
pub proof fn law_dns_differences_in_order(h1: Entries, h2: Entries, w1: Entries, w2: Entries)
    requires
        sorted(h1 + h2),
        sorted(w1 + w2),
        forall|i: int, j: int|
            0 <= i < h1.len() && 0 <= j < w2.len() ==> (#[trigger] h1[i]).0.precedes(
                (#[trigger] w2[j]).0,
            ),
        forall|i: int, j: int|
            0 <= i < w1.len() && 0 <= j < h2.len() ==> (#[trigger] w1[i]).0.precedes(
                (#[trigger] h2[j]).0,
            ),
    ensures
        dns_differences(h1 + h2, w1 + w2) == dns_differences(h1, w1) + dns_differences(h2, w2),
    decreases h1.len() + w1.len(),
{
    let have = h1 + h2;
    let want = w1 + w2;
    if h1.len() == 0 && w1.len() == 0 {
        assert(have =~= h2);
        assert(want =~= w2);
        assert(dns_differences(h1, w1) + dns_differences(h2, w2) =~= dns_differences(h2, w2));
    } else {
        if h1.len() > 0 {
            assert(have[0] == h1[0]);
            assert(have.drop_first() =~= h1.drop_first() + h2);
            crate::ordmap::lemma_tail_sorted(have);
            assert forall|i: int, j: int|
                0 <= i < h1.drop_first().len() && 0 <= j < w2.len() implies (
            #[trigger] h1.drop_first()[i]).0.precedes((#[trigger] w2[j]).0) by {
                assert(h1[i + 1].0.precedes(w2[j].0));
            }
        }
        if w1.len() > 0 {
            assert(want[0] == w1[0]);
            assert(want.drop_first() =~= w1.drop_first() + w2);
            crate::ordmap::lemma_tail_sorted(want);
            assert forall|i: int, j: int|
                0 <= i < w1.drop_first().len() && 0 <= j < h2.len() implies (
            #[trigger] w1.drop_first()[i]).0.precedes((#[trigger] h2[j]).0) by {
                assert(w1[i + 1].0.precedes(h2[j].0));
            }
        }
        if h1.len() == 0 {
            if have.len() > 0 {
                assert(have[0] == h2[0]);
                assert(w1[0].0.precedes(h2[0].0));
            }
            law_dns_differences_in_order(h1, h2, w1.drop_first(), w2);
        } else if w1.len() == 0 {
            if want.len() > 0 {
                assert(want[0] == w2[0]);
                assert(h1[0].0.precedes(w2[0].0));
                crate::ordmap::lemma_asymmetric(h1[0].0, w2[0].0);
            }
            law_dns_differences_in_order(h1.drop_first(), h2, w1, w2);
        } else if w1[0].0.precedes(h1[0].0) {
            law_dns_differences_in_order(h1, h2, w1.drop_first(), w2);
        } else if h1[0].0 != w1[0].0 {
            law_dns_differences_in_order(h1.drop_first(), h2, w1, w2);
        } else {
            law_dns_differences_in_order(h1.drop_first(), h2, w1.drop_first(), w2);
        }
        assert(dns_differences(have, want) =~= dns_differences(h1, w1) + dns_differences(h2, w2));
    }
}

/// A key is what has a zone, a name and a type that are texts.
pub proof fn law_what_is_a_key(m: Seq<(Seq<char>, JsonV)>)
    requires
        sorted(m),
    ensures
        key_of(JsonV::Object(m)) is Ok <==> {
            &&& lookup(m, "zone"@) is Some && lookup(m, "zone"@)->Some_0 is String
            &&& lookup(m, "name"@) is Some && lookup(m, "name"@)->Some_0 is String
            &&& lookup(m, "type"@) is Some && lookup(m, "type"@)->Some_0 is String
        },
{
    let fields = key_fields();
    reveal_strlit("zone");
    reveal_strlit("name");
    reveal_strlit("type");
    assert(fields[0].name@ == "zone"@);
    assert(fields[1].name@ == "name"@);
    assert(fields[2].name@ == "type"@);
    assert("zone"@[0] == 'z' && "name"@[0] == 'n' && "type"@[0] == 't');
    decode::law_records_from_ordered_objects("RecordKey"@, fields, m);
    assert(fields.len() == 3);
    let ok = record_fault("RecordKey"@, fields, JsonV::Object(m)) is None;
    assert(ok ==> (match lookup(m, fields[0].name@) {
        Some(v) => decode::fault(v, fields[0].shape) is None,
        None => !fields[0].in_object,
    }) && (match lookup(m, fields[1].name@) {
        Some(v) => decode::fault(v, fields[1].shape) is None,
        None => !fields[1].in_object,
    }) && (match lookup(m, fields[2].name@) {
        Some(v) => decode::fault(v, fields[2].shape) is None,
        None => !fields[2].in_object,
    }));
}

/// A value is what has a text and a time to live; whether it is proxied may be
/// left out.
pub proof fn law_what_is_a_value(m: Seq<(Seq<char>, JsonV)>)
    requires
        sorted(m),
    ensures
        value_of(JsonV::Object(m)) is Ok <==> {
            &&& lookup(m, "value"@) is Some && lookup(m, "value"@)->Some_0 is String
            &&& lookup(m, "ttl"@) is Some && decode::fault(lookup(m, "ttl"@)->Some_0, Shape::Small) is None
            &&& lookup(m, "proxied"@) is None || lookup(m, "proxied"@)->Some_0 is Bool
        },
{
    let fields = value_fields();
    reveal_strlit("value");
    reveal_strlit("ttl");
    reveal_strlit("proxied");
    assert(fields[0].name@ == "value"@);
    assert(fields[1].name@ == "ttl"@);
    assert(fields[2].name@ == "proxied"@);
    decode::law_records_from_ordered_objects("RecordValue"@, fields, m);
    assert(fields.len() == 3);
    let ok = record_fault("RecordValue"@, fields, JsonV::Object(m)) is None;
    assert(ok ==> (match lookup(m, fields[0].name@) {
        Some(v) => decode::fault(v, fields[0].shape) is None,
        None => !fields[0].in_object,
    }) && (match lookup(m, fields[1].name@) {
        Some(v) => decode::fault(v, fields[1].shape) is None,
        None => !fields[1].in_object,
    }) && (match lookup(m, fields[2].name@) {
        Some(v) => decode::fault(v, fields[2].shape) is None,
        None => !fields[2].in_object,
    }));
}

} // verus!
