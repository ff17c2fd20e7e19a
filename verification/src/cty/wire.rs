//! Messages: what a msgpack value holds, and reading and writing its bytes
//! through `rmpv`.
use vstd::prelude::*;
use vstd::string::*;

verus! {

/// An integer of a message.
#[derive(Clone, Copy, Debug, PartialEq, Eq, Structural)]
pub enum Int {
    /// Zero or above.
    PosInt(u64),
    /// Below zero.
    NegInt(i64),
}

/// A message. Floats are held as their IEEE 754 bits.
#[derive(Debug)]
pub enum Msg {
    Nil,
    Boolean(bool),
    Integer(Int),
    F32(u32),
    F64(u64),
    String(String),
    /// A string whose bytes are not UTF-8.
    RawString(Vec<u8>),
    Binary(Vec<u8>),
    Array(Vec<Msg>),
    Pairs(Vec<(Msg, Msg)>),
    Ext(i8, Vec<u8>),
}

/// What a [`Msg`] holds.
pub enum MsgV {
    Nil,
    Boolean(bool),
    Integer(Int),
    F32(u32),
    F64(u64),
    String(Seq<char>),
    RawString(Seq<u8>),
    Binary(Seq<u8>),
    Array(Seq<MsgV>),
    Pairs(Seq<(MsgV, MsgV)>),
    Ext(i8, Seq<u8>),
}

impl Msg {
    pub open spec fn model(&self) -> MsgV
        decreases self,
    {
        match self {
            Msg::Nil => MsgV::Nil,
            Msg::Boolean(b) => MsgV::Boolean(*b),
            Msg::Integer(i) => MsgV::Integer(*i),
            Msg::F32(b) => MsgV::F32(*b),
            Msg::F64(b) => MsgV::F64(*b),
            Msg::String(s) => MsgV::String(s@),
            Msg::RawString(b) => MsgV::RawString(b@),
            Msg::Binary(b) => MsgV::Binary(b@),
            Msg::Array(xs) => MsgV::Array(
                Seq::new(
                    xs@.len(),
                    |i: int|
                        if 0 <= i < xs@.len() {
                            xs@[i].model()
                        } else {
                            MsgV::Nil
                        },
                ),
            ),
            Msg::Pairs(ps) => MsgV::Pairs(
                Seq::new(
                    ps@.len(),
                    |i: int|
                        if 0 <= i < ps@.len() {
                            (ps@[i].0.model(), ps@[i].1.model())
                        } else {
                            (MsgV::Nil, MsgV::Nil)
                        },
                ),
            ),
            Msg::Ext(t, b) => MsgV::Ext(*t, b@),
        }
    }
}

impl View for Msg {
    type V = MsgV;

    open spec fn view(&self) -> MsgV {
        self.model()
    }
}

/// The messages of a list.
pub open spec fn msgs_view(xs: Seq<Msg>) -> Seq<MsgV> {
    Seq::new(xs.len(), |i: int| xs[i]@)
}

/// The pairs of a map.
pub open spec fn pairs_view(ps: Seq<(Msg, Msg)>) -> Seq<(MsgV, MsgV)> {
    Seq::new(ps.len(), |i: int| (ps[i].0@, ps[i].1@))
}

pub proof fn lemma_array_view(xs: Vec<Msg>)
    ensures
        Msg::Array(xs)@ == MsgV::Array(msgs_view(xs@)),
{
    assert(Msg::Array(xs)@->Array_0 =~= msgs_view(xs@));
}

pub proof fn lemma_pairs_view(ps: Vec<(Msg, Msg)>)
    ensures
        Msg::Pairs(ps)@ == MsgV::Pairs(pairs_view(ps@)),
{
    assert(Msg::Pairs(ps)@->Pairs_0 =~= pairs_view(ps@));
}

/// The bytes of a string or a binary.
pub open spec fn slice_of(m: MsgV) -> Option<Seq<u8>> {
    match m {
        MsgV::Binary(b) => Some(b),
        MsgV::String(s) => Some(vstd::utf8::encode_utf8(s)),
        MsgV::RawString(b) => Some(b),
        _ => None,
    }
}

/// Every string and binary in the message is shorter than `n` bytes.
pub open spec fn slices_below(m: MsgV, n: nat) -> bool
    decreases m,
{
    match m {
        MsgV::Array(xs) => forall|i: int|
            #![trigger xs[i]]
            0 <= i < xs.len() ==> slices_below(xs[i], n),
        MsgV::Pairs(ps) => forall|i: int|
            #![trigger ps[i]]
            0 <= i < ps.len() ==> slices_below(ps[i].0, n) && slices_below(ps[i].1, n),
        _ => slice_of(m) matches Some(b) ==> b.len() < n,
    }
}

/// The message can be read back within `depth` steps of the reader's depth
/// count, its lengths fit 32 bits, its integers are in their normal form
/// and its strings are UTF-8.
pub open spec fn fits(m: MsgV, depth: int) -> bool
    decreases m,
{
    match m {
        MsgV::Integer(Int::NegInt(i)) => depth >= 1 && i < 0,
        MsgV::String(s) => depth >= 3 && vstd::utf8::encode_utf8(s).len() <= 0xffff_ffff,
        MsgV::RawString(_) => false,
        MsgV::Binary(b) => depth >= 2 && b.len() <= 0xffff_ffff,
        MsgV::Ext(_, b) => depth >= 3 && b.len() <= 0xffff_ffff,
        MsgV::Array(xs) => depth >= 2 && xs.len() <= 0xffff_ffff && forall|i: int|
            #![trigger xs[i]]
            0 <= i < xs.len() ==> fits(xs[i], depth - 2),
        MsgV::Pairs(ps) => depth >= 2 && ps.len() <= 0xffff_ffff && forall|i: int|
            #![trigger ps[i]]
            0 <= i < ps.len() ==> fits(ps[i].0, depth - 2) && fits(ps[i].1, depth - 2),
        _ => depth >= 1,
    }
}

// ── rmpv ───────────────────────────────────────────────────────────

/// `rmpv::Value`, carried through the conversions below.
#[verifier::external_type_specification]
#[verifier::external_body]
pub struct ExMsgValue(rmpv::Value);

/// The bytes that `rmpv::encode::write_value` writes for a message.
pub uninterp spec fn msg_bytes(m: MsgV) -> Seq<u8>;

/// What `rmpv::decode::read_value` reads from the front of bytes: a message,
/// or the text of its error.
pub uninterp spec fn msg_read(bytes: Seq<u8>) -> Result<MsgV, Seq<char>>;

/// The text that `{:?}` writes for an `rmpv::Value`.
pub uninterp spec fn msg_debug(m: MsgV) -> Seq<char>;

/// The bits of a double that is neither infinite nor a NaN.
pub open spec fn finite(bits: u64) -> bool {
    (bits / 0x10_0000_0000_0000) % 2048 != 2047
}

/// The bits of a single that is neither infinite nor a NaN.
pub open spec fn finite32(bits: u32) -> bool {
    (bits / 0x80_0000) % 256 != 255
}

/// The bits of a single that is a NaN.
pub open spec fn nan32(bits: u32) -> bool {
    !finite32(bits) && bits % 0x80_0000 != 0
}

/// The bits of the double that `rmpv::Value::as_f64` gives for a single that
/// is a number.
pub uninterp spec fn widened(bits: u32) -> u64;

/// The outside value read from one marker and the bytes behind it.
#[verifier::external_body]
fn raw_value(marker: u8, body: &[u8]) -> rmpv::Value {
    let cell = [&[marker][..], body].concat();
    rmpv::decode::read_value(&mut cell.as_slice()).unwrap_or(rmpv::Value::Nil)
}

/// The outside value of an integer, of a float, read from its bits, and of a
/// string that is not UTF-8, read from its bytes.
#[verifier::external_body]
fn outside_scalar(m: &Msg) -> rmpv::Value {
    match m {
        Msg::Integer(Int::PosInt(n)) => (*n).into(),
        Msg::Integer(Int::NegInt(n)) => (*n).into(),
        Msg::F32(b) => raw_value(0xca, &b.to_be_bytes()),
        Msg::F64(b) => raw_value(0xcb, &b.to_be_bytes()),
        Msg::RawString(b) => raw_value(0xdb, &[&(b.len() as u32).to_be_bytes()[..], b].concat()),
        _ => rmpv::Value::Nil,
    }
}

/// The outside value with the same contents, part by part.
#[verifier::external_body]
fn outside_value(m: &Msg) -> rmpv::Value {
    match m {
        Msg::Boolean(b) => (*b).into(),
        Msg::String(s) => s.as_str().into(),
        Msg::Binary(b) => b.as_slice().into(),
        Msg::Array(xs) => rmpv::Value::Array(xs.iter().map(outside_value).collect()),
        Msg::Pairs(ps) => rmpv::Value::Map(
            ps.iter().map(|p| (outside_value(&p.0), outside_value(&p.1))).collect()),
        Msg::Ext(t, b) => rmpv::Value::Ext(*t, b.clone()),
        _ => outside_scalar(m),
    }
}

/// The integer with the same value; the two kinds are told apart by
/// `as_u64` and `as_i64`.
#[verifier::external_body]
fn inside_integer(n: &rmpv::Value) -> Int {
    match (n.as_u64(), n.as_i64()) {
        (Some(u), _) => Int::PosInt(u),
        (None, i) => Int::NegInt(i.unwrap_or(0)),
    }
}

/// The message of an outside nil, boolean, integer or float.
#[verifier::external_body]
fn inside_scalar(v: &rmpv::Value) -> Msg {
    match v {
        rmpv::Value::Boolean(b) => Msg::Boolean(*b),
        rmpv::Value::Integer(_) => Msg::Integer(inside_integer(v)),
        rmpv::Value::F32(x) => Msg::F32(x.to_bits()),
        rmpv::Value::F64(x) => Msg::F64(x.to_bits()),
        _ => Msg::Nil,
    }
}

/// The message with the same contents as an outside value, part by part.
#[verifier::external_body]
fn inside_value(v: rmpv::Value) -> Msg {
    match v {
        rmpv::Value::String(s) if s.is_str() => Msg::String(s.into_str().unwrap_or_default()),
        rmpv::Value::String(s) => Msg::RawString(s.into_bytes()),
        rmpv::Value::Binary(b) => Msg::Binary(b),
        rmpv::Value::Array(xs) => Msg::Array(xs.into_iter().map(inside_value).collect()),
        rmpv::Value::Map(ps) => Msg::Pairs(
            ps.into_iter().map(|(k, x)| (inside_value(k), inside_value(x))).collect()),
        rmpv::Value::Ext(t, b) => Msg::Ext(t, b),
        other => inside_scalar(&other),
    }
}

/// Reading the bytes gives the message.
pub open spec fn reads_as(bytes: Seq<u8>, m: MsgV) -> bool {
    msg_read(bytes) == Ok::<MsgV, Seq<char>>(m)
}

/// `rmpv::encode::write_value` to a vector, which has no way to fail.
/// `read_value` gives the message back where it fits the reader's depth
/// limit and the format's lengths; each string and binary in it is written
/// whole behind a marker of its own, so the bytes are longer than it.
#[verifier::external_body]
pub(crate) fn write_message(m: &Msg) -> (r: Vec<u8>)
    ensures
        r@ == msg_bytes(m@),
        fits(m@, 1024) ==> reads_as(r@, m@) && slices_below(m@, r@.len()),
{
    let mut buf = Vec::new();
    let _ = rmpv::encode::write_value(&mut buf, &outside_value(m));
    buf
}

/// The result of reading, by what it holds.
pub open spec fn read_view(r: Result<Msg, String>) -> Result<MsgV, Seq<char>> {
    match r {
        Ok(m) => Ok(m@),
        Err(e) => Err(e@),
    }
}

/// What was read holds no string or binary as long as its own bytes.
pub open spec fn read_bounded(r: Result<Msg, String>, n: nat) -> bool {
    match r {
        Ok(m) => slices_below(m@, n),
        Err(_) => true,
    }
}

/// `rmpv::decode::read_value`: one message from the front of the bytes. Each
/// string and binary in it stands in the bytes behind its own marker, so it
/// is shorter than they are.
#[verifier::external_body]
pub(crate) fn read_message(bytes: &[u8]) -> (r: Result<Msg, String>)
    ensures
        read_view(r) == msg_read(bytes@),
        read_bounded(r, bytes@.len()),
{
    let mut cursor = bytes;
    match rmpv::decode::read_value(&mut cursor) {
        Ok(v) => Ok(inside_value(v)),
        Err(e) => Err(e.to_string()),
    }
}

/// `format!("{:?}", v)` on an `rmpv::Value`.
#[verifier::external_body]
pub(crate) fn debug_message(m: &Msg) -> (r: String)
    ensures
        r@ == msg_debug(m@),
{
    format!("{:?}", outside_value(m))
}

/// `rmpv::Value::as_f64` on a single: the double of the same value, finite
/// where the single is. Which NaN comes of a NaN is left open: the conversion
/// of floats does not fix its sign and payload.
#[verifier::external_body]
pub(crate) fn widen(bits: u32) -> (r: u64)
    ensures
        !nan32(bits) ==> r == widened(bits),
        finite(r) == finite32(bits),
{
    raw_value(0xca, &bits.to_be_bytes()).as_f64().map_or(0, |x| x.to_bits())
}

} // verus!
