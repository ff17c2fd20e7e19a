//! The `cty` type system and its msgpack wire form.
use vstd::prelude::*;
use crate::cty::types::CtyType;
use crate::cty::value::{CtyValue, ValueV};
use crate::json::Json;

pub mod json;
pub mod msgpack;
pub mod types;
pub mod value;
pub mod wire;

verus! {

/// What can go wrong between JSON, `cty` values and the wire.
#[derive(Debug, PartialEq, Eq)]
pub enum CtyError {
    Type(String),
    Encode(String),
    Decode(String),
}

/// What a [`CtyError`] says.
pub enum CtyErrorV {
    Type(Seq<char>),
    Encode(Seq<char>),
    Decode(Seq<char>),
}

impl View for CtyError {
    type V = CtyErrorV;

    open spec fn view(&self) -> CtyErrorV {
        match self {
            CtyError::Type(s) => CtyErrorV::Type(s@),
            CtyError::Encode(s) => CtyErrorV::Encode(s@),
            CtyError::Decode(s) => CtyErrorV::Decode(s@),
        }
    }
}

/// An error in words.
pub open spec fn error_text(e: CtyErrorV) -> Seq<char> {
    match e {
        CtyErrorV::Type(s) => "cty type error: "@ + s,
        CtyErrorV::Encode(s) => "msgpack encode: "@ + s,
        CtyErrorV::Decode(s) => "msgpack decode: "@ + s,
    }
}

impl CtyError {
    /// The error in words.
    pub fn message(&self) -> (r: String)
        ensures
            r@ == error_text(self@),
    {
        match self {
            CtyError::Type(s) => crate::text::join2("cty type error: ", s.as_str()),
            CtyError::Encode(s) => crate::text::join2("msgpack encode: ", s.as_str()),
            CtyError::Decode(s) => crate::text::join2("msgpack decode: ", s.as_str()),
        }
    }
}

/// A result, by what it holds.
pub open spec fn outcome<T: View>(r: Result<T, CtyError>) -> Result<T::V, CtyErrorV> {
    match r {
        Ok(v) => Ok(v@),
        Err(e) => Err(e@),
    }
}

pub(crate) fn type_error(a: &str, b: &str) -> (r: CtyError)
    ensures
        r@ == CtyErrorV::Type(a@ + b@),
{
    CtyError::Type(crate::text::join2(a, b))
}

/// A value on the wire: its msgpack bytes.
#[derive(Debug, Clone, PartialEq, Eq)]
pub struct DynamicValue {
    pub msgpack: Vec<u8>,
}

impl DynamicValue {
    /// Encode a value under a type.
    pub fn marshal(value: &CtyValue, ty: &CtyType) -> (r: Result<Self, CtyError>)
        ensures
            match msgpack::msg_of_value(value@, ty@) {
                Ok(m) => r is Ok && r->Ok_0.msgpack@ == wire::msg_bytes(m),
                Err(e) => r is Err && r->Err_0@ == e,
            },
            msgpack::conforms(value@, ty@) && wire::fits(
                msgpack::msg_of_value(value@, ty@)->Ok_0,
                1024,
            ) ==> r is Ok && msgpack::value_of_bytes(r->Ok_0.msgpack@, ty@) == Ok::<
                ValueV,
                CtyErrorV,
            >(value@),
    {
        match msgpack::marshal(value, ty) {
            Ok(b) => Ok(DynamicValue { msgpack: b }),
            Err(e) => Err(e),
        }
    }

    /// Encode JSON attributes under a type.
    pub fn from_json(v: &Json, ty: &CtyType) -> (r: Result<Self, CtyError>)
        ensures
            match json::value_of_json(v@, ty@) {
                Ok(x) => match msgpack::msg_of_value(x, ty@) {
                    Ok(m) => r is Ok && r->Ok_0.msgpack@ == wire::msg_bytes(m),
                    Err(e) => r is Err && r->Err_0@ == e,
                },
                Err(e) => r is Err && r->Err_0@ == e,
            },
            json::value_of_json(v@, ty@) matches Ok(x) ==> msgpack::conforms(x, ty@) && wire::fits(
                msgpack::msg_of_value(x, ty@)->Ok_0,
                1024,
            ) ==> r is Ok && msgpack::value_of_bytes(r->Ok_0.msgpack@, ty@) == Ok::<
                ValueV,
                CtyErrorV,
            >(x),
    {
        match json::from_json(v, ty) {
            Ok(x) => Self::marshal(&x, ty),
            Err(e) => Err(e),
        }
    }

    /// Decode under a type.
    pub fn to_value(&self, ty: &CtyType) -> (r: Result<CtyValue, CtyError>)
        ensures
            outcome(r) == msgpack::value_of_bytes(self.msgpack@, ty@),
    {
        msgpack::unmarshal(self.msgpack.as_slice(), ty)
    }

    /// Decode under a type into JSON.
    pub fn to_json(&self, ty: &CtyType) -> (r: Result<Json, CtyError>)
        ensures
            match msgpack::value_of_bytes(self.msgpack@, ty@) {
                Ok(x) => r is Ok && r->Ok_0@ == json::json_of_value(x),
                Err(e) => r is Err && r->Err_0@ == e,
            },
    {
        match self.to_value(ty) {
            Ok(x) => Ok(json::to_json(&x)),
            Err(e) => Err(e),
        }
    }
}

} // verus!
