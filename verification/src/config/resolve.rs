//! `${type.name.attribute}` references.
//!
//! ```text
//! reference := "${" path "}"
//! path      := segment ("." segment)*
//! segment   := IDENT | IDENT "[" index "]"
//! ```
//!
//! `$${` and `%%{` stand for a literal `${` and `%{`.
use vstd::prelude::*;
use vstd::string::*;
use crate::config::{ConfigError, ConfigErrorV};
use crate::gather;
use crate::json;
use crate::json::{Json, JsonV};
use crate::ordmap;
use crate::ordmap::StrMap;
use crate::text;
use crate::types;
use crate::types::{AddressV, ResourceAddress, ResourceKind, State};

verus! {

// ── References ─────────────────────────────────────────────────────

/// `${` stands at the front.
pub open spec fn opens(s: Seq<char>) -> bool {
    s.len() >= 2 && s[0] == '$' && s[1] == '{'
}

/// Without the `${`s in front.
pub open spec fn strip_open(s: Seq<char>) -> Seq<char>
    decreases s.len(),
{
    if opens(s) {
        strip_open(s.skip(2))
    } else {
        s
    }
}

/// Without the `}`s at the end.
pub open spec fn strip_close(s: Seq<char>) -> Seq<char>
    decreases s.len(),
{
    if s.len() > 0 && s.last() == '}' {
        strip_close(s.drop_last())
    } else {
        s
    }
}

/// The path of a reference.
pub open spec fn path_of(reference: Seq<char>) -> Seq<char> {
    text::trimmed(strip_close(strip_open(reference)))
}

/// The identifier of a segment and its index, which is there only where a
/// numeral stands between the brackets.
pub open spec fn segment(seg: Seq<char>) -> (Seq<char>, Option<nat>) {
    match text::cut(seg, '[') {
        Some((ident, rest)) => (
            ident,
            if rest.len() > 0 && rest.last() == ']' {
                text::numeral_value(text::trimmed(rest.drop_last()))
            } else {
                None
            },
        ),
        None => (seg, None),
    }
}

/// A segment opens a bracket and has no index.
pub open spec fn misindexed(seg: Seq<char>) -> bool {
    text::cut(seg, '[') is Some && segment(seg).1 is None
}

/// One segment further into a value; nowhere where the index is no numeral.
pub open spec fn step(v: JsonV, seg: Seq<char>) -> Option<JsonV> {
    if misindexed(seg) {
        None
    } else {
        match json::member(v, segment(seg).0) {
            Some(x) => match segment(seg).1 {
                Some(n) => json::element(x, n as int),
                None => Some(x),
            },
            None => None,
        }
    }
}

/// Segment by segment into a value.
pub open spec fn navigate(v: JsonV, segs: Seq<Seq<char>>) -> Option<JsonV>
    decreases segs.len(),
{
    if segs.len() == 0 {
        Some(v)
    } else {
        match step(v, segs[0]) {
            Some(x) => navigate(x, segs.skip(1)),
            None => None,
        }
    }
}

/// What a reference leads to.
pub open spec fn referenced(reference: Seq<char>, state: Seq<(Seq<char>, JsonV)>) -> Result<
    JsonV,
    ConfigErrorV,
> {
    match navigate(JsonV::Object(state), text::pieces(path_of(reference), '.')) {
        Some(v) => Ok(v),
        None => Err(ConfigErrorV::UnknownReference(reference)),
    }
}

/// Split a segment into its identifier and its index.
pub fn parse_segment(seg: &str) -> (r: (String, Option<usize>))
    ensures
        r.0@ == segment(seg@).0,
        match r.1 {
            Some(n) => segment(seg@).1 == Some(n as nat),
            None => segment(seg@).1 is None,
        },
{
    match text::split_once(seg, '[') {
        Some((ident, rest)) => {
            let v = text::chars_of(rest.as_str());
            if v.len() > 0 && v[v.len() - 1] == ']' {
                let n = text::text_of(&v, 0, v.len() - 1);
                proof {
                    assert(v@.subrange(0, v@.len() - 1) =~= rest@.drop_last());
                }
                let t = text::trim(n.as_str());
                (ident, text::parse_numeral(t.as_str()))
            } else {
                (ident, None)
            }
        },
        None => (seg.to_owned(), None),
    }
}

/// Whether a segment opens a bracket and has no index.
fn is_misindexed(seg: &str) -> (r: bool)
    ensures
        r == misindexed(seg@),
{
    text::split_once(seg, '[').is_some() && parse_segment(seg).1.is_none()
}

/// An element of an array; an error where there is none.
fn index_into<'a>(value: &'a Json, idx: usize, reference: &str) -> (r: Result<&'a Json, ConfigError>)
    ensures
        match json::element(value@, idx as int) {
            Some(x) => r is Ok && r->Ok_0@ == x,
            None => r is Err && r->Err_0@ == ConfigErrorV::UnknownReference(reference@),
        },
{
    match value.at(idx) {
        Some(x) => Ok(x),
        None => Err(ConfigError::UnknownReference(reference.to_owned())),
    }
}

fn inner_path(reference: &str) -> (r: String)
    ensures
        r@ == path_of(reference@),
{
    let v = text::chars_of(reference);
    let ghost s = reference@;
    let mut a: usize = 0;
    proof {
        assert(s.skip(0) =~= s);
    }
    while v.len() - a >= 2 && v[a] == '$' && v[a + 1] == '{'
        invariant
            a <= v@.len(),
            v@ == s,
            strip_open(s) == strip_open(s.skip(a as int)),
        decreases v.len() - a,
    {
        proof {
            assert(s.skip(a as int)[0] == v@[a as int]);
            assert(s.skip(a as int)[1] == v@[a + 1]);
            assert(s.skip(a as int).skip(2) =~= s.skip(a + 2));
        }
        a += 2;
    }
    let ghost t = s.skip(a as int);
    proof {
        assert(t.len() >= 2 ==> t[0] == v@[a as int] && t[1] == v@[a + 1]);
        assert(strip_open(s) == t);
    }
    let mut b: usize = v.len();
    proof {
        assert(t.take(b - a) =~= t);
    }
    while b > a && v[b - 1] == '}'
        invariant
            a <= b <= v@.len(),
            v@ == s,
            t == s.skip(a as int),
            strip_close(t) == strip_close(t.take(b - a)),
        decreases b,
    {
        proof {
            assert(t.take(b - a).last() == v@[b - 1]);
            assert(t.take(b - a).drop_last() =~= t.take(b - 1 - a));
        }
        b -= 1;
    }
    let inner = text::text_of(&v, a, b);
    proof {
        assert(b > a ==> t.take(b - a).last() == v@[b - 1]);
        assert(v@.subrange(a as int, b as int) =~= t.take(b - a));
    }
    text::trim(inner.as_str())
}

/// What a reference leads to in a resolution map.
pub fn resolve_reference(reference: &str, state: &StrMap<Json>) -> (r: Result<Json, ConfigError>)
    ensures
        match referenced(reference@, json::object_view(state@)) {
            Ok(v) => r is Ok && r->Ok_0@ == v,
            Err(e) => r is Err && r->Err_0@ == e,
        },
{
    let inner = inner_path(reference);
    let segs = text::split(inner.as_str(), '.');
    let ghost all = text::pieces(inner@, '.');
    let ghost root = JsonV::Object(json::object_view(state@));
    let (head_key, head_idx) = parse_segment(segs[0].as_str());
    proof {
        assert(text::texts(segs@) == all);
        assert(all[0] == segs@[0]@);
        assert(all.len() == segs@.len());
        ordmap::lemma_map_vals_lookup(state@, |v: Json| v@, head_key@);
    }
    if is_misindexed(segs[0].as_str()) {
        return Err(ConfigError::UnknownReference(reference.to_owned()));
    }
    let mut current = match state.get(head_key.as_str()) {
        Some(v) => v,
        None => {
            return Err(ConfigError::UnknownReference(reference.to_owned()));
        },
    };
    if let Some(i) = head_idx {
        match index_into(current, i, reference) {
            Ok(v) => {
                current = v;
            },
            Err(e) => {
                return Err(e);
            },
        }
    }
    let mut n: usize = 1;
    while n < segs.len()
        invariant
            1 <= n <= segs@.len(),
            text::texts(segs@) == all,
            all == text::pieces(path_of(reference@), '.'),
            root == JsonV::Object(json::object_view(state@)),
            navigate(root, all) == navigate(current@, all.skip(n as int)),
        decreases segs.len() - n,
    {
        let (key, idx) = parse_segment(segs[n].as_str());
        proof {
            assert(all.skip(n as int)[0] == segs@[n as int]@);
            assert(all.skip(n as int).skip(1) =~= all.skip(n + 1));
        }
        if is_misindexed(segs[n].as_str()) {
            return Err(ConfigError::UnknownReference(reference.to_owned()));
        }
        match current.get(key.as_str()) {
            Some(v) => {
                current = v;
            },
            None => {
                return Err(ConfigError::UnknownReference(reference.to_owned()));
            },
        }
        if let Some(i) = idx {
            match index_into(current, i, reference) {
                Ok(v) => {
                    current = v;
                },
                Err(e) => {
                    return Err(e);
                },
            }
        }
        n += 1;
    }
    Ok(current.clone())
}

// ── Interpolation ──────────────────────────────────────────────────

/// `$${` stands at the front.
pub open spec fn escaped_open(s: Seq<char>) -> bool {
    s.len() >= 3 && s[0] == '$' && s[1] == '$' && s[2] == '{'
}

/// `$${` or `%%{` stands at the front.
pub open spec fn escaped(s: Seq<char>) -> bool {
    s.len() >= 3 && (s[0] == '$' || s[0] == '%') && s[1] == s[0] && s[2] == '{'
}

/// A `${` stands somewhere that no `$` escapes.
pub open spec fn interpolated(s: Seq<char>) -> bool
    decreases s.len(),
{
    if s.len() == 0 {
        false
    } else if escaped_open(s) {
        interpolated(s.skip(3))
    } else if opens(s) {
        true
    } else {
        interpolated(s.skip(1))
    }
}

/// Exactly one reference and nothing around it but white space: the first `}`
/// ends it.
pub open spec fn whole_reference(s: Seq<char>) -> bool {
    let t = text::trimmed(s);
    opens(t) && text::first_at(t, '}') == t.len() - 1 && !interpolated(t.skip(2))
}

/// With every escape rewritten to what it stands for.
pub open spec fn unescaped(s: Seq<char>) -> Seq<char>
    decreases s.len(),
{
    if s.len() == 0 {
        s
    } else if escaped(s) {
        seq![s[0], '{'] + unescaped(s.skip(3))
    } else {
        seq![s[0]] + unescaped(s.skip(1))
    }
}

/// How a value stands inside a text: a string as it is, any other value as
/// JSON.
pub open spec fn embedded(v: JsonV) -> Seq<char> {
    match v {
        JsonV::String(s) => s,
        _ => json::json_text(v),
    }
}

/// `front` before the text of a result.
pub open spec fn behind(front: Seq<char>, r: Result<Seq<char>, ConfigErrorV>) -> Result<
    Seq<char>,
    ConfigErrorV,
> {
    match r {
        Ok(t) => Ok(front + t),
        Err(e) => Err(e),
    }
}

/// `s` with every escape rewritten and every reference replaced by what it
/// leads to, from left to right, up to the first error. `whole` is the text
/// that `s` is the end of.
pub open spec fn substituted(
    s: Seq<char>,
    whole: Seq<char>,
    state: Seq<(Seq<char>, JsonV)>,
) -> Result<Seq<char>, ConfigErrorV>
    decreases s.len(),
{
    if s.len() == 0 {
        Ok(s)
    } else if escaped(s) {
        behind(seq![s[0], '{'], substituted(s.skip(3), whole, state))
    } else if opens(s) {
        let end = text::first_at(s, '}');
        if 0 <= end < s.len() {
            match referenced(s.take(end + 1), state) {
                Ok(v) => behind(embedded(v), substituted(s.skip(end + 1), whole, state)),
                Err(e) => Err(e),
            }
        } else {
            Err(
                ConfigErrorV::Malformed("unterminated interpolation: "@ + text::str_debug(whole)),
            )
        }
    } else {
        behind(seq![s[0]], substituted(s.skip(1), whole, state))
    }
}

/// What a string of a configuration becomes.
pub open spec fn resolved_text(s: Seq<char>, state: Seq<(Seq<char>, JsonV)>) -> Result<
    JsonV,
    ConfigErrorV,
> {
    if !interpolated(s) {
        Ok(JsonV::String(unescaped(s)))
    } else if whole_reference(s) {
        referenced(text::trimmed(s), state)
    } else {
        match substituted(s, s, state) {
            Ok(t) => Ok(JsonV::String(t)),
            Err(e) => Err(e),
        }
    }
}

/// What a configuration becomes: every string resolved, up to the first
/// error; everything else as it is.
pub open spec fn resolved(v: JsonV, state: Seq<(Seq<char>, JsonV)>) -> Result<JsonV, ConfigErrorV>
    decreases v,
{
    match v {
        JsonV::String(s) => resolved_text(s, state),
        JsonV::Array(xs) => match resolved_list(xs, state) {
            Ok(ys) => Ok(JsonV::Array(ys)),
            Err(e) => Err(e),
        },
        JsonV::Object(m) => match resolved_members(m, state) {
            Ok(o) => Ok(JsonV::Object(o)),
            Err(e) => Err(e),
        },
        _ => Ok(v),
    }
}

pub open spec fn resolved_list(xs: Seq<JsonV>, state: Seq<(Seq<char>, JsonV)>) -> Result<
    Seq<JsonV>,
    ConfigErrorV,
>
    decreases xs,
{
    if xs.len() == 0 {
        Ok(Seq::empty())
    } else {
        match resolved_list(xs.subrange(0, xs.len() - 1), state) {
            Ok(prev) => match resolved(xs[xs.len() - 1], state) {
                Ok(x) => Ok(prev.push(x)),
                Err(e) => Err(e),
            },
            Err(e) => Err(e),
        }
    }
}

pub open spec fn resolved_members(
    m: Seq<(Seq<char>, JsonV)>,
    state: Seq<(Seq<char>, JsonV)>,
) -> Result<Seq<(Seq<char>, JsonV)>, ConfigErrorV>
    decreases m,
{
    if m.len() == 0 {
        Ok(Seq::empty())
    } else {
        match resolved_members(m.subrange(0, m.len() - 1), state) {
            Ok(prev) => match resolved(m[m.len() - 1].1, state) {
                Ok(x) => Ok(prev.push((m[m.len() - 1].0, x))),
                Err(e) => Err(e),
            },
            Err(e) => Err(e),
        }
    }
}

/// Whether a `${` stands somewhere that no `$` escapes.
pub fn has_interpolation(s: &str) -> (r: bool)
    ensures
        r == interpolated(s@),
{
    contains_unescaped_dollar_brace(s)
}

/// Whether a `${` stands somewhere that no `$` escapes.
pub fn contains_unescaped_dollar_brace(s: &str) -> (r: bool)
    ensures
        r == interpolated(s@),
{
    let v = text::chars_of(s);
    let mut i: usize = 0;
    proof {
        assert(s@.skip(0) =~= s@);
    }
    while i < v.len()
        invariant
            i <= v@.len(),
            v@ == s@,
            interpolated(s@) == interpolated(s@.skip(i as int)),
        decreases v.len() - i,
    {
        let ghost t = s@.skip(i as int);
        proof {
            assert(t[0] == v@[i as int]);
            assert(i + 1 < v@.len() ==> t[1] == v@[i + 1]);
            assert(i + 2 < v@.len() ==> t[2] == v@[i + 2]);
            assert(t.skip(1) =~= s@.skip(i + 1));
        }
        if v.len() - i >= 3 && v[i] == '$' && v[i + 1] == '$' && v[i + 2] == '{' {
            proof {
                assert(t.skip(3) =~= s@.skip(i + 3));
            }
            i += 3;
        } else {
            if v.len() - i >= 2 && v[i] == '$' && v[i + 1] == '{' {
                return true;
            }
            i += 1;
        }
    }
    false
}

/// Whether a text is exactly one reference, so that what it leads to keeps
/// its JSON type.
pub fn is_whole_reference(s: &str) -> (r: bool)
    ensures
        r == whole_reference(s@),
{
    let t = text::trim(s);
    let v = text::chars_of(t.as_str());
    proof {
        assert(t@.skip(0) =~= t@);
    }
    if v.len() >= 2 && v[0] == '$' && v[1] == '{' && text::find_char(&v, '}', 0) == v.len() - 1 {
        let rest = text::text_of(&v, 2, v.len());
        proof {
            assert(v@.subrange(2, v@.len() as int) =~= t@.skip(2));
        }
        !contains_unescaped_dollar_brace(rest.as_str())
    } else {
        false
    }
}

/// Rewrite every `$${` and `%%{` to what it stands for.
pub fn unescape_only(s: &str) -> (r: String)
    ensures
        r@ == unescaped(s@),
{
    let v = text::chars_of(s);
    let mut out = String::new();
    let mut i: usize = 0;
    proof {
        assert(s@.skip(0) =~= s@);
        assert(out@ + unescaped(s@) =~= unescaped(s@));
    }
    while i < v.len()
        invariant
            i <= v@.len(),
            v@ == s@,
            out@ + unescaped(s@.skip(i as int)) == unescaped(s@),
        decreases v.len() - i,
    {
        let ghost t = s@.skip(i as int);
        let ghost front = out@;
        proof {
            assert(t[0] == v@[i as int]);
            assert(i + 1 < v@.len() ==> t[1] == v@[i + 1]);
            assert(i + 2 < v@.len() ==> t[2] == v@[i + 2]);
            assert(t.skip(1) =~= s@.skip(i + 1));
        }
        if v.len() - i >= 3 && (v[i] == '$' || v[i] == '%') && v[i + 1] == v[i] && v[i + 2] == '{' {
            out.push(v[i]);
            out.push('{');
            proof {
                assert(t.skip(3) =~= s@.skip(i + 3));
                assert(out@ + unescaped(t.skip(3)) =~= front + (seq![t[0], '{'] + unescaped(
                    t.skip(3),
                )));
            }
            i += 3;
        } else {
            out.push(v[i]);
            proof {
                assert(out@ + unescaped(t.skip(1)) =~= front + (seq![t[0]] + unescaped(t.skip(1))));
            }
            i += 1;
        }
    }
    proof {
        assert(out@ + Seq::<char>::empty() =~= out@);
        assert(s@.skip(i as int) =~= Seq::empty());
    }
    out
}

/// What a string of a configuration becomes.
pub fn resolve_string(s: &str, state: &StrMap<Json>) -> (r: Result<Json, ConfigError>)
    ensures
        match resolved_text(s@, json::object_view(state@)) {
            Ok(v) => r is Ok && r->Ok_0@ == v,
            Err(e) => r is Err && r->Err_0@ == e,
        },
{
    if !has_interpolation(s) {
        return Ok(Json::String(unescape_only(s)));
    }
    if is_whole_reference(s) {
        let t = text::trim(s);
        return resolve_reference(t.as_str(), state);
    }
    let ghost st = json::object_view(state@);
    let v = text::chars_of(s);
    let mut out = String::new();
    let mut i: usize = 0;
    proof {
        assert(s@.skip(0) =~= s@);
        lemma_behind(Seq::empty(), Seq::empty(), substituted(s@, s@, st));
        assert(behind(out@, substituted(s@, s@, st)) == substituted(s@, s@, st)) by {
            if let Ok(t) = substituted(s@, s@, st) {
                assert(out@ + t =~= t);
            }
        }
    }
    while i < v.len()
        invariant
            i <= v@.len(),
            v@ == s@,
            st == json::object_view(state@),
            interpolated(s@),
            !whole_reference(s@),
            behind(out@, substituted(s@.skip(i as int), s@, st)) == substituted(s@, s@, st),
        decreases v.len() - i,
    {
        let ghost t = s@.skip(i as int);
        let ghost front = out@;
        proof {
            assert(t[0] == v@[i as int]);
            assert(i + 1 < v@.len() ==> t[1] == v@[i + 1]);
            assert(i + 2 < v@.len() ==> t[2] == v@[i + 2]);
            assert(t.skip(1) =~= s@.skip(i + 1));
        }
        if v.len() - i >= 3 && (v[i] == '$' || v[i] == '%') && v[i + 1] == v[i] && v[i + 2] == '{' {
            out.push(v[i]);
            out.push('{');
            proof {
                assert(t.skip(3) =~= s@.skip(i + 3));
                assert(out@ =~= front + seq![t[0], '{']);
                lemma_behind(front, seq![t[0], '{'], substituted(t.skip(3), s@, st));
            }
            i += 3;
        } else if v.len() - i >= 2 && v[i] == '$' && v[i + 1] == '{' {
            let end = text::find_char(&v, '}', i);
            if end >= v.len() {
                return Err(
                    ConfigError::Malformed(
                        text::join2("unterminated interpolation: ", text::debug_text(s).as_str()),
                    ),
                );
            }
            let reference = text::text_of(&v, i, end + 1);
            proof {
                assert(v@.subrange(i as int, end + 1) =~= t.take(end - i + 1));
                assert(t.skip(end - i + 1) =~= s@.skip(end + 1));
            }
            match resolve_reference(reference.as_str(), state) {
                Ok(x) => {
                    proof {
                        lemma_behind(
                            front,
                            embedded(x@),
                            substituted(t.skip(end - i + 1), s@, st),
                        );
                    }
                    match &x {
                        Json::String(y) => out.append(y.as_str()),
                        _ => {
                            let y = x.text();
                            out.append(y.as_str());
                        },
                    }
                },
                Err(e) => {
                    return Err(e);
                },
            }
            i = end + 1;
        } else {
            out.push(v[i]);
            proof {
                assert(out@ =~= front + seq![t[0]]);
                lemma_behind(front, seq![t[0]], substituted(t.skip(1), s@, st));
            }
            i += 1;
        }
    }
    proof {
        assert(s@.skip(i as int) =~= Seq::empty());
        assert(out@ + Seq::<char>::empty() =~= out@);
    }
    Ok(Json::String(out))
}

proof fn lemma_behind(a: Seq<char>, b: Seq<char>, r: Result<Seq<char>, ConfigErrorV>)
    ensures
        behind(a, behind(b, r)) == behind(a + b, r),
{
    if let Ok(t) = r {
        assert(a + (b + t) =~= a + b + t);
    }
}

/// Resolve every string of a configuration against a resolution map. A
/// string that is one reference becomes the value that it leads to; in any
/// other string each reference is replaced by the text of its value.
#[verifier::loop_isolation(false)]
pub fn resolve_config(value: &Json, state: &StrMap<Json>) -> (r: Result<Json, ConfigError>)
    ensures
        match resolved(value@, json::object_view(state@)) {
            Ok(v) => r is Ok && r->Ok_0@ == v,
            Err(e) => r is Err && r->Err_0@ == e,
        },
    decreases value,
{
    let ghost st = json::object_view(state@);
    match value {
        Json::String(s) => resolve_string(s.as_str(), state),
        Json::Array(xs) => {
            let mut out: Vec<Json> = Vec::new();
            let mut i: usize = 0;
            let ghost all = json::list_view(xs@);
            proof {
                json::lemma_array_view(*xs);
                assert(all.subrange(0, 0) =~= Seq::empty());
                assert(json::list_view(out@) =~= Seq::empty());
            }
            while i < xs.len()
                invariant
                    i <= xs@.len(),
                    resolved_list(all.subrange(0, i as int), st) == Ok::<Seq<JsonV>, ConfigErrorV>(
                        json::list_view(out@),
                    ),
                decreases xs.len() - i,
            {
                proof {
                    assert(decreases_to!(*xs => xs@[i as int]));
                    let b = all.subrange(0, i + 1);
                    assert(b.subrange(0, i as int) =~= all.subrange(0, i as int));
                    assert(b[i as int] == xs@[i as int]@);
                }
                match resolve_config(&xs[i], state) {
                    Ok(x) => {
                        proof {
                            assert(json::list_view(out@.push(x)) =~= json::list_view(out@).push(x@));
                        }
                        out.push(x);
                    },
                    Err(e) => {
                        proof {
                            lemma_list_error(all, st, i + 1);
                        }
                        return Err(e);
                    },
                }
                i += 1;
            }
            proof {
                assert(all.subrange(0, all.len() as int) =~= all);
                json::lemma_array_view(out);
            }
            Ok(Json::Array(out))
        },
        Json::Object(m) => {
            let mut out: StrMap<Json> = StrMap::new();
            let mut i: usize = 0;
            let ghost all = json::object_view(m@);
            proof {
                json::lemma_object_view(*m);
                assert(all.subrange(0, 0) =~= Seq::empty());
                assert(json::object_view(out@) =~= Seq::empty());
            }
            while i < m.entries.len()
                invariant
                    i <= m.entries@.len(),
                    resolved_members(all.subrange(0, i as int), st) == Ok::<
                        Seq<(Seq<char>, JsonV)>,
                        ConfigErrorV,
                    >(json::object_view(out@)),
                decreases m.entries.len() - i,
            {
                let ghost old_out = out@;
                proof {
                    assert(decreases_to!(m.entries => m.entries@[i as int]));
                    let b = all.subrange(0, i + 1);
                    assert(b.subrange(0, i as int) =~= all.subrange(0, i as int));
                    assert(b[i as int] == (m.entries@[i as int].0@, m.entries@[i as int].1@));
                }
                match resolve_config(&m.entries[i].1, state) {
                    Ok(x) => {
                        out.entries.push((m.entries[i].0.clone(), x));
                        proof {
                            assert(json::object_view(out@) =~= json::object_view(old_out).push(
                                (m.entries@[i as int].0@, x@),
                            ));
                        }
                    },
                    Err(e) => {
                        proof {
                            lemma_members_error(all, st, i + 1);
                        }
                        return Err(e);
                    },
                }
                i += 1;
            }
            proof {
                assert(all.subrange(0, all.len() as int) =~= all);
                json::lemma_object_view(out);
            }
            Ok(Json::Object(out))
        },
        _ => Ok(value.clone()),
    }
}

proof fn lemma_list_error(xs: Seq<JsonV>, state: Seq<(Seq<char>, JsonV)>, n: int)
    requires
        0 <= n <= xs.len(),
        resolved_list(xs.subrange(0, n), state) is Err,
    ensures
        resolved_list(xs, state) == resolved_list(xs.subrange(0, n), state),
    decreases xs.len() - n,
{
    if n == xs.len() {
        assert(xs.subrange(0, n) =~= xs);
    } else {
        let b = xs.subrange(0, n + 1);
        assert(b.subrange(0, n) =~= xs.subrange(0, n));
        lemma_list_error(xs, state, n + 1);
    }
}

proof fn lemma_members_error(
    m: Seq<(Seq<char>, JsonV)>,
    state: Seq<(Seq<char>, JsonV)>,
    n: int,
)
    requires
        0 <= n <= m.len(),
        resolved_members(m.subrange(0, n), state) is Err,
    ensures
        resolved_members(m, state) == resolved_members(m.subrange(0, n), state),
    decreases m.len() - n,
{
    if n == m.len() {
        assert(m.subrange(0, n) =~= m);
    } else {
        let b = m.subrange(0, n + 1);
        assert(b.subrange(0, n) =~= m.subrange(0, n));
        lemma_members_error(m, state, n + 1);
    }
}

// ── The resolution map ─────────────────────────────────────────────

/// The members that are filed under a name: none yet, or those of the object
/// that is there. Nothing can be filed under any other value.
pub open spec fn members_at(slot: Option<JsonV>) -> Option<Seq<(Seq<char>, JsonV)>> {
    match slot {
        None => Some(Seq::empty()),
        Some(JsonV::Object(m)) => Some(m),
        Some(_) => None,
    }
}

/// The map with `name` filed under `type_id`.
pub open spec fn filed(
    m: Seq<(Seq<char>, JsonV)>,
    type_id: Seq<char>,
    name: Seq<char>,
    attributes: JsonV,
) -> Seq<(Seq<char>, JsonV)> {
    match members_at(ordmap::lookup(m, type_id)) {
        Some(by_name) => ordmap::put(
            m,
            type_id,
            JsonV::Object(ordmap::put(by_name, name, attributes)),
        ),
        None => m,
    }
}

/// The map with the attributes of one resource: `type → name → attributes`,
/// for a data source `data → type → name → attributes`.
pub open spec fn with_resource(
    m: Seq<(Seq<char>, JsonV)>,
    address: AddressV,
    attributes: JsonV,
) -> Seq<(Seq<char>, JsonV)> {
    match address.kind {
        ResourceKind::Managed => filed(m, address.type_id, address.name, attributes),
        ResourceKind::Data => match members_at(ordmap::lookup(m, "data"@)) {
            Some(by_type) => ordmap::put(
                m,
                "data"@,
                JsonV::Object(filed(by_type, address.type_id, address.name, attributes)),
            ),
            None => m,
        },
    }
}

/// The address of a resource and the attributes of its first instance.
pub open spec fn first_attributes(r: types::StateResource) -> (AddressV, Option<JsonV>) {
    (
        r.address@,
        if r.instances@.len() > 0 {
            Some(r.instances@[0].attributes@)
        } else {
            None
        },
    )
}

/// The map of a list of resources, filed one after the other; a resource
/// without an instance adds nothing.
pub open spec fn map_of_resources(rs: Seq<types::StateResource>) -> Seq<(Seq<char>, JsonV)>
    decreases rs.len(),
{
    if rs.len() == 0 {
        Seq::empty()
    } else {
        let prev = map_of_resources(rs.drop_last());
        let (address, attributes) = first_attributes(rs.last());
        match attributes {
            Some(a) => with_resource(prev, address, a),
            None => prev,
        }
    }
}

/// The members that can be added to: of an object, or none yet.
fn open_slot(slot: Option<&Json>) -> (r: Option<StrMap<Json>>)
    ensures
        match r {
            Some(m) => members_at(json::opt_view(slot)) == Some(json::object_view(m@)),
            None => members_at(json::opt_view(slot)) is None,
        },
{
    match slot {
        None => {
            let m: StrMap<Json> = StrMap::new();
            proof {
                assert(json::object_view(m@) =~= Seq::empty());
            }
            Some(m)
        },
        Some(Json::Object(m)) => {
            proof {
                json::lemma_object_view(*m);
            }
            Some(json::clone_object(m))
        },
        Some(_) => None,
    }
}

fn insert_json(map: &mut StrMap<Json>, key: &str, value: Json)
    ensures
        json::object_view(final(map)@) == ordmap::put(
            json::object_view(old(map)@),
            key@,
            value@,
        ),
{
    proof {
        ordmap::lemma_map_vals_put(map@, |v: Json| v@, key@, value);
    }
    map.insert(key.to_owned(), value);
}

/// File `name` under `type_id`.
fn file_under(map: &mut StrMap<Json>, type_id: &str, name: &str, attributes: &Json)
    ensures
        json::object_view(final(map)@) == filed(
            json::object_view(old(map)@),
            type_id@,
            name@,
            attributes@,
        ),
{
    proof {
        ordmap::lemma_map_vals_lookup(map@, |v: Json| v@, type_id@);
    }
    let slot = open_slot(map.get(type_id));
    if let Some(mut by_name) = slot {
        let a: Json = attributes.clone();
        insert_json(&mut by_name, name, a);
        proof {
            json::lemma_object_view(by_name);
        }
        insert_json(map, type_id, Json::Object(by_name));
    }
}

/// Add one resource to a resolution map.
pub fn insert_into_resolution_map(
    map: &mut StrMap<Json>,
    address: &ResourceAddress,
    attributes: &Json,
)
    ensures
        json::object_view(final(map)@) == with_resource(
            json::object_view(old(map)@),
            address@,
            attributes@,
        ),
{
    match address.kind {
        ResourceKind::Data => {
            proof {
                ordmap::lemma_map_vals_lookup(map@, |v: Json| v@, "data"@);
            }
            let slot = open_slot(map.get("data"));
            if let Some(mut by_type) = slot {
                file_under(
                    &mut by_type,
                    address.type_id.0.as_str(),
                    address.name.as_str(),
                    attributes,
                );
                proof {
                    json::lemma_object_view(by_type);
                }
                insert_json(map, "data", Json::Object(by_type));
            }
        },
        ResourceKind::Managed => {
            file_under(map, address.type_id.0.as_str(), address.name.as_str(), attributes);
        },
    }
}

/// The resolution map of a state.
pub fn state_resolution_map(state: &State) -> (r: StrMap<Json>)
    ensures
        json::object_view(r@) == map_of_resources(state.resources@),
{
    let mut sm: StrMap<Json> = StrMap::new();
    let mut i: usize = 0;
    let ghost all = state.resources@;
    proof {
        assert(all.take(0) =~= Seq::empty());
        assert(json::object_view(sm@) =~= Seq::empty());
    }
    while i < state.resources.len()
        invariant
            i <= state.resources@.len(),
            all == state.resources@,
            json::object_view(sm@) == map_of_resources(all.take(i as int)),
        decreases state.resources.len() - i,
    {
        let r = &state.resources[i];
        proof {
            assert(all.take(i + 1).drop_last() =~= all.take(i as int));
            assert(all.take(i + 1).last() == *r);
        }
        if r.instances.len() > 0 {
            insert_into_resolution_map(&mut sm, &r.address, &r.instances[0].attributes);
        }
        i += 1;
    }
    proof {
        assert(all.take(all.len() as int) =~= all);
    }
    sm
}

// ── Laws ───────────────────────────────────────────────────────────

/// A name that a path can hold as it is.
pub open spec fn plain_name(s: Seq<char>) -> bool {
    s.len() > 0 && forall|i: int|
        #![trigger s[i]]
        0 <= i < s.len() ==> s[i] != '.' && s[i] != '[' && s[i] != '$' && s[i] != '}' && !text::white(
            s[i],
        )
}

/// Names with a `.` between them.
pub open spec fn dotted(names: Seq<Seq<char>>) -> Seq<char>
    decreases names.len(),
{
    if names.len() == 0 {
        Seq::empty()
    } else if names.len() == 1 {
        names[0]
    } else {
        names[0] + seq!['.'] + dotted(names.skip(1))
    }
}

/// The reference to a path.
pub open spec fn reference_to(names: Seq<Seq<char>>) -> Seq<char> {
    seq!['$', '{'] + dotted(names) + seq!['}']
}

pub open spec fn plain_names(names: Seq<Seq<char>>) -> bool {
    forall|i: int| #![trigger names[i]] 0 <= i < names.len() ==> plain_name(names[i])
}

proof fn lemma_dotted(names: Seq<Seq<char>>)
    requires
        names.len() > 0,
        plain_names(names),
    ensures
        dotted(names).len() > 0,
        text::pieces(dotted(names), '.') == names,
        forall|i: int|
            #![trigger dotted(names)[i]]
            0 <= i < dotted(names).len() ==> dotted(names)[i] != '$' && dotted(names)[i] != '}'
                && !text::white(dotted(names)[i]),
    decreases names.len(),
{
    let d = dotted(names);
    let n0 = names[0];
    assert(plain_name(n0));
    if names.len() == 1 {
        text::lemma_first_at(d, '.', d.len() as int);
        assert(names =~= seq![d]);
    } else {
        let rest = names.skip(1);
        assert forall|i: int| #![trigger rest[i]] 0 <= i < rest.len() implies plain_name(rest[i]) by {
            assert(rest[i] == names[i + 1]);
        }
        lemma_dotted(rest);
        let r = dotted(rest);
        assert forall|j: int| 0 <= j < n0.len() implies d[j] != '.' by {
            assert(d[j] == n0[j]);
        }
        assert(d[n0.len() as int] == '.');
        text::lemma_first_at(d, '.', n0.len() as int);
        assert(d.take(n0.len() as int) =~= n0);
        assert(d.skip(n0.len() as int + 1) =~= r);
        assert(seq![n0] + rest =~= names);
        assert forall|i: int| #![trigger d[i]] 0 <= i < d.len() implies d[i] != '$' && d[i] != '}'
            && !text::white(d[i]) by {
            if i < n0.len() {
                assert(d[i] == n0[i]);
            } else if i > n0.len() {
                assert(d[i] == r[i - n0.len() - 1]);
            }
        }
    }
}

/// A reference to a path of plain names leads where its names lead, one
/// after the other.
pub proof fn law_reference_follows_its_path(
    names: Seq<Seq<char>>,
    state: Seq<(Seq<char>, JsonV)>,
)
    requires
        names.len() > 0,
        plain_names(names),
    ensures
        referenced(reference_to(names), state) == match navigate(JsonV::Object(state), names) {
            Some(v) => Ok::<JsonV, ConfigErrorV>(v),
            None => Err(ConfigErrorV::UnknownReference(reference_to(names))),
        },
{
    lemma_dotted(names);
    let d = dotted(names);
    let s = reference_to(names);
    let t = d + seq!['}'];
    assert(s.skip(2) =~= t);
    assert(t[0] == d[0]);
    assert(strip_open(s) == strip_open(t));
    assert(strip_open(t) == t);
    assert(t.drop_last() =~= d);
    assert(d.last() == d[d.len() - 1]);
    assert(strip_close(t) == strip_close(d));
    assert(strip_close(d) == d);
    assert(text::trim_front(d) == d);
    assert(text::trim_back(d) == d);
}

/// What a resource's attributes were filed as is what its address leads to,
/// and from there into the attributes.
pub proof fn law_filed_attributes_are_found(
    m: Seq<(Seq<char>, JsonV)>,
    address: AddressV,
    attributes: JsonV,
    path: Seq<Seq<char>>,
)
    requires
        plain_name(address.type_id),
        plain_name(address.name),
        match address.kind {
            ResourceKind::Managed => can_file(m, address.type_id),
            ResourceKind::Data => can_file(m, "data"@) && can_file(
                members_at(ordmap::lookup(m, "data"@))->Some_0,
                address.type_id,
            ),
        },
    ensures
        navigate(JsonV::Object(with_resource(m, address, attributes)), location(address) + path)
            == navigate(attributes, path),
{
    lemma_plain_segment(address.type_id);
    lemma_plain_segment(address.name);
    let r = with_resource(m, address, attributes);
    match address.kind {
        ResourceKind::Managed => {
            lemma_filed(m, address.type_id, address.name, attributes, path);
            assert(location(address) =~= seq![address.type_id, address.name]);
        },
        ResourceKind::Data => {
            let by_type = members_at(ordmap::lookup(m, "data"@))->Some_0;
            let inner = JsonV::Object(filed(by_type, address.type_id, address.name, attributes));
            lemma_filed(by_type, address.type_id, address.name, attributes, path);
            ordmap::lemma_put_lookup(m, "data"@, inner, "data"@);
            assert(plain_name("data"@)) by {
                reveal_strlit("data");
            }
            lemma_plain_segment("data"@);
            let whole = location(address) + path;
            assert(whole[0] == "data"@);
            assert(whole.skip(1) =~= seq![address.type_id, address.name] + path);
            assert(step(JsonV::Object(r), "data"@) == Some(inner));
        },
    }
}

/// The path of an address.
pub open spec fn location(address: AddressV) -> Seq<Seq<char>> {
    match address.kind {
        ResourceKind::Managed => seq![address.type_id, address.name],
        ResourceKind::Data => seq!["data"@, address.type_id, address.name],
    }
}

/// Names can be filed under `key`: nothing is there, or an object.
pub open spec fn can_file(m: Seq<(Seq<char>, JsonV)>, key: Seq<char>) -> bool {
    &&& ordmap::sorted(m)
    &&& members_at(ordmap::lookup(m, key)) is Some
    &&& ordmap::sorted(members_at(ordmap::lookup(m, key))->Some_0)
}

proof fn lemma_plain_segment(s: Seq<char>)
    requires
        plain_name(s),
    ensures
        segment(s) == (s, None::<nat>),
{
    text::lemma_first_at(s, '[', s.len() as int);
}

proof fn lemma_filed(
    m: Seq<(Seq<char>, JsonV)>,
    type_id: Seq<char>,
    name: Seq<char>,
    attributes: JsonV,
    path: Seq<Seq<char>>,
)
    requires
        plain_name(type_id),
        plain_name(name),
        can_file(m, type_id),
    ensures
        navigate(JsonV::Object(filed(m, type_id, name, attributes)), seq![type_id, name] + path)
            == navigate(attributes, path),
{
    let by_name = members_at(ordmap::lookup(m, type_id))->Some_0;
    let inner = JsonV::Object(ordmap::put(by_name, name, attributes));
    ordmap::lemma_put_lookup(m, type_id, inner, type_id);
    ordmap::lemma_put_lookup(by_name, name, attributes, name);
    lemma_plain_segment(type_id);
    lemma_plain_segment(name);
    let whole = seq![type_id, name] + path;
    assert(whole[0] == type_id);
    assert(whole.skip(1)[0] == name);
    assert(whole.skip(1).skip(1) =~= path);
    assert(step(JsonV::Object(filed(m, type_id, name, attributes)), type_id) == Some(inner));
    assert(step(inner, name) == Some(attributes));
    let top = JsonV::Object(filed(m, type_id, name, attributes));
    assert(navigate(top, whole) == navigate(inner, whole.skip(1)));
    assert(navigate(inner, whole.skip(1)) == navigate(attributes, whole.skip(1).skip(1)));
}

/// No string in the value holds a `$` or a `%`.
pub open spec fn no_signs(v: JsonV) -> bool
    decreases v,
{
    match v {
        JsonV::String(s) => !s.contains('$') && !s.contains('%'),
        JsonV::Array(xs) => forall|i: int| #![trigger xs[i]] 0 <= i < xs.len() ==> no_signs(xs[i]),
        JsonV::Object(m) => forall|i: int| #![trigger m[i]] 0 <= i < m.len() ==> no_signs(m[i].1),
        _ => true,
    }
}

proof fn lemma_plain_text(s: Seq<char>)
    requires
        forall|i: int| 0 <= i < s.len() ==> s[i] != '$' && s[i] != '%',
    ensures
        !interpolated(s),
        unescaped(s) == s,
    decreases s.len(),
{
    if s.len() > 0 {
        assert(s[0] != '$' && s[0] != '%');
        assert forall|i: int| 0 <= i < s.skip(1).len() implies s.skip(1)[i] != '$' && s.skip(1)[i]
            != '%' by {
            assert(s.skip(1)[i] == s[i + 1]);
        }
        lemma_plain_text(s.skip(1));
        assert(seq![s[0]] + s.skip(1) =~= s);
    }
}

/// A configuration without interpolation and without escapes stays as it is,
/// whatever the state.
pub proof fn law_plain_config_unchanged(v: JsonV, state: Seq<(Seq<char>, JsonV)>)
    requires
        no_signs(v),
    ensures
        resolved(v, state) == Ok::<JsonV, ConfigErrorV>(v),
    decreases v,
{
    match v {
        JsonV::String(s) => {
            assert forall|i: int| 0 <= i < s.len() implies s[i] != '$' && s[i] != '%' by {
                if s[i] == '$' {
                    assert(s.contains('$'));
                }
                if s[i] == '%' {
                    assert(s.contains('%'));
                }
            }
            lemma_plain_text(s);
        },
        JsonV::Array(xs) => {
            lemma_plain_list(xs, state, xs.len() as int);
            assert(xs.subrange(0, xs.len() as int) =~= xs);
        },
        JsonV::Object(m) => {
            lemma_plain_members(m, state, m.len() as int);
            assert(m.subrange(0, m.len() as int) =~= m);
        },
        _ => {},
    }
}

proof fn lemma_plain_list(xs: Seq<JsonV>, state: Seq<(Seq<char>, JsonV)>, n: int)
    requires
        0 <= n <= xs.len(),
        forall|i: int| #![trigger xs[i]] 0 <= i < xs.len() ==> no_signs(xs[i]),
    ensures
        resolved_list(xs.subrange(0, n), state) == Ok::<Seq<JsonV>, ConfigErrorV>(
            xs.subrange(0, n),
        ),
    decreases xs, n,
{
    if n > 0 {
        lemma_plain_list(xs, state, n - 1);
        let a = xs.subrange(0, n);
        assert(a.subrange(0, n - 1) =~= xs.subrange(0, n - 1));
        assert(a[n - 1] == xs[n - 1]);
        law_plain_config_unchanged(xs[n - 1], state);
        assert(xs.subrange(0, n - 1).push(xs[n - 1]) =~= a);
    } else {
        assert(xs.subrange(0, 0) =~= Seq::empty());
    }
}

proof fn lemma_plain_members(
    m: Seq<(Seq<char>, JsonV)>,
    state: Seq<(Seq<char>, JsonV)>,
    n: int,
)
    requires
        0 <= n <= m.len(),
        forall|i: int| #![trigger m[i]] 0 <= i < m.len() ==> no_signs(m[i].1),
    ensures
        resolved_members(m.subrange(0, n), state) == Ok::<Seq<(Seq<char>, JsonV)>, ConfigErrorV>(
            m.subrange(0, n),
        ),
    decreases m, n,
{
    if n > 0 {
        lemma_plain_members(m, state, n - 1);
        let a = m.subrange(0, n);
        assert(a.subrange(0, n - 1) =~= m.subrange(0, n - 1));
        assert(a[n - 1] == m[n - 1]);
        law_plain_config_unchanged(m[n - 1].1, state);
        assert(m.subrange(0, n - 1).push((m[n - 1].0, m[n - 1].1)) =~= a);
    } else {
        assert(m.subrange(0, 0) =~= Seq::empty());
    }
}

/// Escaping keeps a text from being taken for a reference: a text in which
/// every `${` is escaped is only rewritten, and no state is looked up.
pub proof fn law_escaped_text_is_literal(s: Seq<char>, state: Seq<(Seq<char>, JsonV)>)
    requires
        !interpolated(s),
    ensures
        resolved(JsonV::String(s), state) == Ok::<JsonV, ConfigErrorV>(
            JsonV::String(unescaped(s)),
        ),
{
}

/// Nothing but references, escapes and plain characters: none of them is cut
/// in two behind `front`.
pub open spec fn cut_behind(front: Seq<char>, state: Seq<(Seq<char>, JsonV)>) -> bool {
    &&& front.len() > 0 ==> front.last() != '$' && front.last() != '%'
    &&& !(substituted(front, front, state) matches Err(ConfigErrorV::Malformed(_)))
}

proof fn lemma_whole_is_for_errors(
    s: Seq<char>,
    w1: Seq<char>,
    w2: Seq<char>,
    state: Seq<(Seq<char>, JsonV)>,
)
    requires
        !(substituted(s, w1, state) matches Err(ConfigErrorV::Malformed(_))),
    ensures
        substituted(s, w1, state) == substituted(s, w2, state),
    decreases s.len(),
{
    if s.len() > 0 {
        if escaped(s) {
            lemma_whole_is_for_errors(s.skip(3), w1, w2, state);
        } else if opens(s) {
            let end = text::first_at(s, '}');
            if 0 <= end < s.len() && referenced(s.take(end + 1), state) is Ok {
                lemma_whole_is_for_errors(s.skip(end + 1), w1, w2, state);
            }
        } else {
            lemma_whole_is_for_errors(s.skip(1), w1, w2, state);
        }
    }
}

proof fn lemma_cut(
    front: Seq<char>,
    rest: Seq<char>,
    whole: Seq<char>,
    state: Seq<(Seq<char>, JsonV)>,
)
    requires
        front.len() > 0 ==> front.last() != '$' && front.last() != '%',
        !(substituted(front, whole, state) matches Err(ConfigErrorV::Malformed(_))),
    ensures
        substituted(front + rest, whole, state) == match substituted(front, whole, state) {
            Ok(a) => behind(a, substituted(rest, whole, state)),
            Err(e) => Err(e),
        },
    decreases front.len(),
{
    let s = front + rest;
    let tail = substituted(rest, whole, state);
    if front.len() == 0 {
        assert(s =~= rest);
        if let Ok(t) = tail {
            assert(front + t =~= t);
        }
    } else {
        assert(s[0] == front[0]);
        if front.len() >= 2 {
            assert(s[1] == front[1]);
        }
        if front.len() >= 3 {
            assert(s[2] == front[2]);
        }
        if escaped(front) {
            let f = front.skip(3);
            assert(s.skip(3) =~= f + rest);
            assert(f.len() > 0 ==> f.last() == front.last());
            lemma_cut(f, rest, whole, state);
            if let Ok(a) = substituted(f, whole, state) {
                lemma_behind(seq![front[0], '{'], a, tail);
            }
        } else if opens(front) {
            text::lemma_first_at_is(front, '}');
            let end = text::first_at(front, '}');
            assert(end < front.len());
            assert forall|j: int| 0 <= j < end implies s[j] != '}' by {
                assert(s[j] == front[j]);
            }
            assert(s[end] == front[end]);
            text::lemma_first_at(s, '}', end);
            assert(s.take(end + 1) =~= front.take(end + 1));
            let f = front.skip(end + 1);
            assert(s.skip(end + 1) =~= f + rest);
            assert(f.len() > 0 ==> f.last() == front.last());
            if let Ok(v) = referenced(front.take(end + 1), state) {
                lemma_cut(f, rest, whole, state);
                if let Ok(a) = substituted(f, whole, state) {
                    lemma_behind(embedded(v), a, tail);
                }
            }
        } else {
            let f = front.skip(1);
            assert(s.skip(1) =~= f + rest);
            assert(f.len() > 0 ==> f.last() == front.last());
            if front.len() == 1 {
                assert(front[0] == front.last());
            } else if front.len() == 2 {
                assert(front[1] == front.last());
            }
            assert(!escaped(s) && !opens(s));
            lemma_cut(f, rest, whole, state);
            if let Ok(a) = substituted(f, whole, state) {
                lemma_behind(seq![front[0]], a, tail);
            }
        }
    }
}

/// Cut where no reference and no escape is cut in two, a text becomes what
/// its front becomes, followed by what its rest becomes: nothing in front
/// changes how the rest is read. An error in front is the error of the whole.
pub proof fn law_texts_are_substituted_in_parts(
    front: Seq<char>,
    rest: Seq<char>,
    state: Seq<(Seq<char>, JsonV)>,
)
    requires
        cut_behind(front, state),
    ensures
        match substituted(front, front, state) {
            Ok(a) => match substituted(rest, rest, state) {
                Ok(b) => substituted(front + rest, front + rest, state) == Ok::<
                    Seq<char>,
                    ConfigErrorV,
                >(a + b),
                Err(ConfigErrorV::Malformed(_)) => substituted(
                    front + rest,
                    front + rest,
                    state,
                ) is Err,
                Err(e) => substituted(front + rest, front + rest, state) == Err::<
                    Seq<char>,
                    ConfigErrorV,
                >(e),
            },
            Err(e) => substituted(front + rest, front + rest, state) == Err::<
                Seq<char>,
                ConfigErrorV,
            >(e),
        },
{
    let whole = front + rest;
    lemma_whole_is_for_errors(front, front, whole, state);
    lemma_cut(front, rest, whole, state);
    if substituted(rest, rest, state) matches Err(ConfigErrorV::Malformed(_)) {
        if !(substituted(rest, whole, state) matches Err(ConfigErrorV::Malformed(_))) {
            lemma_whole_is_for_errors(rest, whole, rest, state);
        }
    } else {
        lemma_whole_is_for_errors(rest, rest, whole, state);
    }
}

/// The parts of a text: an escape stands for the sign and the bracket, a
/// reference for what it leads to, and any other character for itself. An
/// opened reference that nothing closes is an error.
pub proof fn law_parts_of_texts(s: Seq<char>, whole: Seq<char>, state: Seq<(Seq<char>, JsonV)>)
    ensures
        substituted("$${"@, whole, state) == Ok::<Seq<char>, ConfigErrorV>("${"@),
        substituted("%%{"@, whole, state) == Ok::<Seq<char>, ConfigErrorV>("%{"@),
        forall|c: char| #[trigger]
            substituted(seq![c], whole, state) == Ok::<Seq<char>, ConfigErrorV>(seq![c]),
        (opens(s) && s.last() == '}' && forall|j: int|
            0 <= j < s.len() - 1 ==> s[j] != '}') ==> substituted(s, whole, state) == match referenced(
            s,
            state,
        ) {
            Ok(v) => Ok::<Seq<char>, ConfigErrorV>(embedded(v)),
            Err(e) => Err(e),
        },
        (opens(s) && !s.contains('}')) ==> substituted(s, whole, state) is Err,
{
    reveal_strlit("$${");
    reveal_strlit("%%{");
    reveal_strlit("${");
    reveal_strlit("%{");
    reveal_with_fuel(substituted, 2);
    assert("$${"@.skip(3) =~= Seq::<char>::empty());
    assert("%%{"@.skip(3) =~= Seq::<char>::empty());
    assert(seq!['$', '{'] + Seq::<char>::empty() =~= "${"@);
    assert(seq!['%', '{'] + Seq::<char>::empty() =~= "%{"@);
    assert forall|c: char| #[trigger]
        substituted(seq![c], whole, state) == Ok::<Seq<char>, ConfigErrorV>(seq![c]) by {
        assert(seq![c].skip(1) =~= Seq::<char>::empty());
        assert(seq![seq![c][0]] + Seq::<char>::empty() =~= seq![c]);
    }
    if opens(s) && s.last() == '}' && forall|j: int| 0 <= j < s.len() - 1 ==> s[j] != '}' {
        lemma_one_reference(s, whole, state);
    }
    if opens(s) && !s.contains('}') {
        text::lemma_first_at_is(s, '}');
    }
}

proof fn lemma_one_reference(s: Seq<char>, whole: Seq<char>, state: Seq<(Seq<char>, JsonV)>)
    requires
        opens(s),
        s.last() == '}',
        forall|j: int| 0 <= j < s.len() - 1 ==> s[j] != '}',
    ensures
        substituted(s, whole, state) == match referenced(s, state) {
            Ok(v) => Ok::<Seq<char>, ConfigErrorV>(embedded(v)),
            Err(e) => Err(e),
        },
{
    text::lemma_first_at(s, '}', s.len() - 1);
    assert(s.take(s.len() as int) =~= s);
    assert(s.skip(s.len() as int) =~= Seq::<char>::empty());
    assert(substituted(Seq::<char>::empty(), whole, state) == Ok::<Seq<char>, ConfigErrorV>(
        Seq::<char>::empty(),
    ));
    if let Ok(v) = referenced(s, state) {
        assert(embedded(v) + Seq::<char>::empty() =~= embedded(v));
    }
}

proof fn lemma_interpolated_signs(s: Seq<char>)
    requires
        escaped(s),
        s[0] == '%',
    ensures
        interpolated(s) == interpolated(s.skip(3)),
{
    assert(s.skip(1).skip(1) =~= s.skip(2));
    assert(s.skip(2).skip(1) =~= s.skip(3));
    assert(s.skip(1)[0] == '%');
    assert(s.skip(2)[0] == '{');
    assert(interpolated(s) == interpolated(s.skip(1)));
    assert(interpolated(s.skip(1)) == interpolated(s.skip(1).skip(1)));
    assert(interpolated(s.skip(2)) == interpolated(s.skip(2).skip(1)));
}

proof fn lemma_without_references(
    s: Seq<char>,
    whole: Seq<char>,
    state: Seq<(Seq<char>, JsonV)>,
)
    requires
        !interpolated(s),
    ensures
        substituted(s, whole, state) == Ok::<Seq<char>, ConfigErrorV>(unescaped(s)),
    decreases s.len(),
{
    if s.len() > 0 {
        if escaped(s) {
            if s[0] == '%' {
                lemma_interpolated_signs(s);
            }
            lemma_without_references(s.skip(3), whole, state);
        } else {
            lemma_without_references(s.skip(1), whole, state);
        }
    }
}

proof fn lemma_padded_opens(s: Seq<char>, i: int)
    requires
        0 <= i <= s.len(),
        opens(s.skip(i)),
        forall|j: int| 0 <= j < i ==> #[trigger] s[j] != '$',
    ensures
        interpolated(s),
    decreases i,
{
    if i == 0 {
        assert(s.skip(0) =~= s);
    } else {
        assert(s[0] != '$');
        assert(s.skip(1).skip(i - 1) =~= s.skip(i));
        assert forall|j: int| 0 <= j < i - 1 implies #[trigger] s.skip(1)[j] != '$' by {
            assert(s.skip(1)[j] == s[j + 1]);
        }
        lemma_padded_opens(s.skip(1), i - 1);
    }
}

/// A string that is not one reference alone becomes the string of its parts;
/// one that is becomes what the reference leads to, of whatever type that is.
pub proof fn law_strings_resolve(s: Seq<char>, state: Seq<(Seq<char>, JsonV)>)
    ensures
        !whole_reference(s) ==> resolved(JsonV::String(s), state) == match substituted(s, s, state) {
            Ok(t) => Ok::<JsonV, ConfigErrorV>(JsonV::String(t)),
            Err(e) => Err(e),
        },
        whole_reference(s) ==> resolved(JsonV::String(s), state) == referenced(
            text::trimmed(s),
            state,
        ),
{
    if !interpolated(s) {
        lemma_without_references(s, s, state);
        if whole_reference(s) {
            let (i, j) = text::lemma_trimmed_span(s);
            let t = text::trimmed(s);
            assert(t[0] == s[i] && t[1] == s[i + 1]);
            assert(opens(s.skip(i)));
            lemma_padded_opens(s, i);
        }
    }
}

proof fn lemma_reference_signs(names: Seq<Seq<char>>)
    requires
        names.len() > 0,
        plain_names(names),
    ensures
        ({
            let r = reference_to(names);
            &&& opens(r)
            &&& r.len() >= 4
            &&& r.last() == '}'
            &&& forall|j: int| 0 <= j < r.len() - 1 ==> r[j] != '}'
            &&& forall|j: int| 2 <= j < r.len() ==> r[j] != '$'
            &&& !interpolated(r.skip(2))
        }),
{
    lemma_dotted(names);
    let d = dotted(names);
    let r = reference_to(names);
    assert forall|j: int| 0 <= j < r.len() - 1 implies r[j] != '}' by {
        if j >= 2 {
            assert(r[j] == d[j - 2]);
        }
    }
    assert forall|j: int| 2 <= j < r.len() implies r[j] != '$' by {
        if j < r.len() - 1 {
            assert(r[j] == d[j - 2]);
        }
    }
    assert forall|j: int| 0 <= j < r.skip(2).len() implies r.skip(2)[j] != '$' by {
        assert(r.skip(2)[j] == r[j + 2]);
    }
    lemma_no_dollar(r.skip(2));
}

proof fn lemma_no_dollar(s: Seq<char>)
    requires
        forall|j: int| 0 <= j < s.len() ==> s[j] != '$',
    ensures
        !interpolated(s),
    decreases s.len(),
{
    if s.len() > 0 {
        assert(s[0] != '$');
        assert forall|j: int| 0 <= j < s.skip(1).len() implies s.skip(1)[j] != '$' by {
            assert(s.skip(1)[j] == s[j + 1]);
        }
        lemma_no_dollar(s.skip(1));
    }
}

/// One reference with nothing but white space around it becomes the value
/// that its path leads to, as it is.
pub proof fn law_lone_reference_keeps_the_value(
    a: Seq<char>,
    names: Seq<Seq<char>>,
    b: Seq<char>,
    state: Seq<(Seq<char>, JsonV)>,
)
    requires
        names.len() > 0,
        plain_names(names),
        forall|i: int| 0 <= i < a.len() ==> text::white(#[trigger] a[i]),
        forall|i: int| 0 <= i < b.len() ==> text::white(#[trigger] b[i]),
    ensures
        resolved(JsonV::String(a + reference_to(names) + b), state) == match navigate(
            JsonV::Object(state),
            names,
        ) {
            Some(v) => Ok::<JsonV, ConfigErrorV>(v),
            None => Err(ConfigErrorV::UnknownReference(reference_to(names))),
        },
{
    let r = reference_to(names);
    let s = a + r + b;
    lemma_reference_signs(names);
    text::law_trimmed_leaves_the_core(a, r, b);
    text::lemma_first_at(r, '}', r.len() - 1);
    assert(whole_reference(s));
    law_strings_resolve(s, state);
    law_reference_follows_its_path(names, state);
}

proof fn lemma_plain_substituted(s: Seq<char>, whole: Seq<char>, state: Seq<(Seq<char>, JsonV)>)
    requires
        !s.contains('$'),
        !s.contains('%'),
    ensures
        substituted(s, whole, state) == Ok::<Seq<char>, ConfigErrorV>(s),
        forall|j: int| 0 <= j < s.len() ==> #[trigger] s[j] != '$' && s[j] != '%',
{
    assert forall|j: int| 0 <= j < s.len() implies #[trigger] s[j] != '$' && s[j] != '%' by {
        if s[j] == '$' {
            assert(s.contains('$'));
        }
        if s[j] == '%' {
            assert(s.contains('%'));
        }
    }
    lemma_plain_text(s);
    lemma_without_references(s, whole, state);
}

/// Two references in one text are both replaced, each by what it leads to,
/// and the text around and between them stays.
pub proof fn law_every_reference_is_replaced(
    a: Seq<char>,
    p: Seq<Seq<char>>,
    b: Seq<char>,
    q: Seq<Seq<char>>,
    c: Seq<char>,
    x: JsonV,
    y: JsonV,
    state: Seq<(Seq<char>, JsonV)>,
)
    requires
        p.len() > 0,
        q.len() > 0,
        plain_names(p),
        plain_names(q),
        !a.contains('$') && !a.contains('%'),
        !b.contains('$') && !b.contains('%'),
        !c.contains('$') && !c.contains('%'),
        navigate(JsonV::Object(state), p) == Some(x),
        navigate(JsonV::Object(state), q) == Some(y),
    ensures
        resolved(JsonV::String(a + reference_to(p) + b + reference_to(q) + c), state) == Ok::<
            JsonV,
            ConfigErrorV,
        >(JsonV::String(a + embedded(x) + b + embedded(y) + c)),
{
    let rp = reference_to(p);
    let rq = reference_to(q);
    let s = a + rp + b + rq + c;
    lemma_reference_signs(p);
    lemma_reference_signs(q);
    law_reference_follows_its_path(p, state);
    law_reference_follows_its_path(q, state);
    lemma_one_reference(rp, s, state);
    lemma_one_reference(rq, s, state);
    lemma_plain_substituted(a, s, state);
    lemma_plain_substituted(b, s, state);
    lemma_plain_substituted(c, s, state);
    let t4 = rq + c;
    let t3 = b + t4;
    let t2 = rp + t3;
    assert(s =~= a + t2);
    lemma_cut(rq, c, s, state);
    assert(substituted(t4, s, state) == Ok::<Seq<char>, ConfigErrorV>(embedded(y) + c));
    assert(b.len() > 0 ==> b.last() == b[b.len() - 1]);
    lemma_cut(b, t4, s, state);
    assert(substituted(t3, s, state) == Ok::<Seq<char>, ConfigErrorV>(b + (embedded(y) + c)));
    lemma_cut(rp, t3, s, state);
    assert(a.len() > 0 ==> a.last() == a[a.len() - 1]);
    lemma_cut(a, t2, s, state);
    assert(a + (embedded(x) + (b + (embedded(y) + c))) =~= a + embedded(x) + b + embedded(y) + c);
    let (i, j) = text::lemma_trimmed_span(s);
    let t = text::trimmed(s);
    let first = a.len() + rp.len() - 1;
    let last = a.len() + rp.len() + b.len() + rq.len() - 1;
    assert(s[first] == '}') by {
        assert(s[first] == rp[rp.len() - 1]);
    }
    assert(s[last] == '}') by {
        assert(s[last] == rq[rq.len() - 1]);
    }
    assert(!text::white('}'));
    assert(i <= first && last < j);
    text::lemma_first_at_is(t, '}');
    assert(t[first - i] == s[first]);
    assert(text::first_at(t, '}') <= first - i);
    assert(!whole_reference(s));
    law_strings_resolve(s, state);
}

/// A value stands in a text as itself where it is a string, else as its JSON.
pub proof fn law_embedded_values(v: JsonV)
    ensures
        v matches JsonV::String(s) ==> embedded(v) == s,
        !(v is String) ==> embedded(v) == json::json_text(v),
{
}

/// A path is followed step by step: as far as the first part leads, and from
/// there as the second part leads.
pub proof fn law_paths_are_followed_in_parts(v: JsonV, a: Seq<Seq<char>>, b: Seq<Seq<char>>)
    ensures
        navigate(v, a + b) == match navigate(v, a) {
            Some(x) => navigate(x, b),
            None => None,
        },
        navigate(v, Seq::<Seq<char>>::empty()) == Some(v),
    decreases a.len(),
{
    if a.len() == 0 {
        assert(a + b =~= b);
    } else {
        assert((a + b)[0] == a[0]);
        assert((a + b).skip(1) =~= a.skip(1) + b);
        if let Some(x) = step(v, a[0]) {
            law_paths_are_followed_in_parts(x, a.skip(1), b);
        }
    }
}

/// A plain name leads to the member of that name, and with a number in
/// brackets to that element of it.
pub proof fn law_steps_go_to_members(v: JsonV, name: Seq<char>, n: nat)
    requires
        !name.contains('['),
        n <= usize::MAX,
    ensures
        step(v, name) == json::member(v, name),
        step(v, name + seq!['['] + (text::decimal(n) + seq![']'])) == match json::member(v, name) {
            Some(x) => json::element(x, n as int),
            None => None,
        },
{
    let d = text::decimal(n);
    let rest = d + seq![']'];
    text::law_cut_at_the_first(name, '[', rest);
    text::law_decimal_reads_back(n);
    assert(rest.drop_last() =~= d);
    assert(rest.last() == ']');
    assert(text::is_digit(d[0]) && text::is_digit(d[d.len() - 1]));
    let none = Seq::<char>::empty();
    text::law_trimmed_leaves_the_core(none, d, none);
    assert(none + d + none =~= d);
}

/// A bracket that is not closed at the end, or that holds no number, leads
/// nowhere.
pub proof fn law_broken_indices_lead_nowhere(v: JsonV, name: Seq<char>, rest: Seq<char>)
    requires
        !name.contains('['),
        rest.len() == 0 || rest.last() != ']' || text::numeral_value(
            text::trimmed(rest.drop_last()),
        ) is None,
    ensures
        step(v, name + seq!['['] + rest) is None,
{
    text::law_cut_at_the_first(name, '[', rest);
}

proof fn lemma_strip_open_push(r: Seq<char>)
    ensures
        strip_open(r.push('}')) == strip_open(r).push('}'),
    decreases r.len(),
{
    let s = r.push('}');
    if opens(r) {
        assert(s[0] == r[0] && s[1] == r[1]);
        assert(s.skip(2) =~= r.skip(2).push('}'));
        lemma_strip_open_push(r.skip(2));
    } else if r.len() >= 2 {
        assert(s[0] == r[0] && s[1] == r[1]);
    } else if r.len() == 1 {
        assert(s[1] == '}');
    }
}

/// The brackets of a reference are not part of its path, and white space
/// around the path is not either.
pub proof fn law_brackets_are_not_path(
    r: Seq<char>,
    a: Seq<char>,
    names: Seq<Seq<char>>,
    b: Seq<char>,
)
    requires
        names.len() > 0,
        plain_names(names),
        forall|i: int| 0 <= i < a.len() ==> text::white(#[trigger] a[i]),
        forall|i: int| 0 <= i < b.len() ==> text::white(#[trigger] b[i]),
    ensures
        path_of(seq!['$', '{'] + r) == path_of(r),
        path_of(r.push('}')) == path_of(r),
        path_of(a + dotted(names) + b) == dotted(names),
{
    assert((seq!['$', '{'] + r).skip(2) =~= r);
    lemma_strip_open_push(r);
    assert(strip_open(r).push('}').drop_last() =~= strip_open(r));
    lemma_dotted(names);
    let d = dotted(names);
    let t = a + d + b;
    assert(!text::white('$') && !text::white('}'));
    if a.len() > 0 {
        assert(t[0] == a[0]);
    } else {
        assert(t[0] == d[0]);
    }
    assert(strip_open(t) == t);
    if b.len() > 0 {
        assert(t.last() == b[b.len() - 1]);
    } else {
        assert(t.last() == d[d.len() - 1]);
    }
    assert(strip_close(t) == t);
    assert(d.last() == d[d.len() - 1]);
    text::law_trimmed_leaves_the_core(a, d, b);
}

proof fn lemma_list_gathers(xs: Seq<JsonV>, state: Seq<(Seq<char>, JsonV)>, n: int)
    requires
        0 <= n <= xs.len(),
    ensures
        gather::gathered(resolved_list(xs.subrange(0, n), state), n, |i: int| resolved(xs[i], state)),
    decreases n,
{
    if n > 0 {
        lemma_list_gathers(xs, state, n - 1);
        let b = xs.subrange(0, n);
        let a = xs.subrange(0, n - 1);
        assert(b.subrange(0, n - 1) =~= a);
        gather::lemma_gathered_push(
            resolved_list(a, state),
            resolved_list(b, state),
            n - 1,
            |i: int| resolved(xs[i], state),
        );
    }
}

/// A value under its name.
spec fn named(key: Seq<char>, r: Result<JsonV, ConfigErrorV>) -> Result<
    (Seq<char>, JsonV),
    ConfigErrorV,
> {
    match r {
        Ok(v) => Ok((key, v)),
        Err(e) => Err(e),
    }
}

proof fn lemma_members_gather(
    m: Seq<(Seq<char>, JsonV)>,
    state: Seq<(Seq<char>, JsonV)>,
    n: int,
)
    requires
        0 <= n <= m.len(),
    ensures
        gather::gathered(
            resolved_members(m.subrange(0, n), state),
            n,
            |i: int| named(m[i].0, resolved(m[i].1, state)),
        ),
    decreases n,
{
    if n > 0 {
        lemma_members_gather(m, state, n - 1);
        let b = m.subrange(0, n);
        let a = m.subrange(0, n - 1);
        assert(b.subrange(0, n - 1) =~= a);
        gather::lemma_gathered_push(
            resolved_members(a, state),
            resolved_members(b, state),
            n - 1,
            |i: int| named(m[i].0, resolved(m[i].1, state)),
        );
    }
}

/// Every value in a configuration is resolved, wherever it stands: each
/// element of an array and each member of an object as if it stood alone. The
/// first that cannot be is the error of the whole.
pub proof fn law_configs_resolve_by_part(v: JsonV, state: Seq<(Seq<char>, JsonV)>)
    ensures
        v matches JsonV::Array(xs) ==> match resolved(v, state) {
            Ok(r) => r is Array && r->Array_0.len() == xs.len() && forall|i: int|
                0 <= i < xs.len() ==> resolved(xs[i], state) == Ok::<JsonV, ConfigErrorV>(
                    #[trigger] r->Array_0[i],
                ),
            Err(e) => exists|i: int|
                0 <= i < xs.len() && resolved(#[trigger] xs[i], state) == Err::<
                    JsonV,
                    ConfigErrorV,
                >(e) && forall|j: int| 0 <= j < i ==> resolved(#[trigger] xs[j], state) is Ok,
        },
        v matches JsonV::Object(m) ==> match resolved(v, state) {
            Ok(r) => r is Object && r->Object_0.len() == m.len() && forall|i: int|
                0 <= i < m.len() ==> (#[trigger] r->Object_0[i]).0 == m[i].0 && resolved(
                    m[i].1,
                    state,
                ) == Ok::<JsonV, ConfigErrorV>(r->Object_0[i].1),
            Err(e) => exists|i: int|
                0 <= i < m.len() && resolved((#[trigger] m[i]).1, state) == Err::<
                    JsonV,
                    ConfigErrorV,
                >(e) && forall|j: int| 0 <= j < i ==> resolved((#[trigger] m[j]).1, state) is Ok,
        },
        v is Null || v is Bool || v is Number ==> resolved(v, state) == Ok::<JsonV, ConfigErrorV>(v),
{
    match v {
        JsonV::Array(xs) => {
            lemma_list_gathers(xs, state, xs.len() as int);
            assert(xs.subrange(0, xs.len() as int) =~= xs);
            let each = |i: int| resolved(xs[i], state);
            match resolved_list(xs, state) {
                Ok(ys) => {
                    assert forall|i: int| 0 <= i < xs.len() implies resolved(xs[i], state) == Ok::<
                        JsonV,
                        ConfigErrorV,
                    >(#[trigger] ys[i]) by {
                        assert(each(i) == Ok::<JsonV, ConfigErrorV>(ys[i]));
                    }
                },
                Err(e) => {
                    let i = choose|i: int|
                        0 <= i < xs.len() && #[trigger] each(i) == Err::<JsonV, ConfigErrorV>(e)
                            && forall|j: int| 0 <= j < i ==> #[trigger] each(j) is Ok;
                    assert(resolved(xs[i], state) == Err::<JsonV, ConfigErrorV>(e));
                    assert forall|j: int| 0 <= j < i implies resolved(#[trigger] xs[j], state) is Ok by {
                        assert(each(j) is Ok);
                    }
                },
            }
        },
        JsonV::Object(m) => {
            lemma_members_gather(m, state, m.len() as int);
            assert(m.subrange(0, m.len() as int) =~= m);
            let each = |i: int| named(m[i].0, resolved(m[i].1, state));
            match resolved_members(m, state) {
                Ok(o) => {
                    assert forall|i: int| 0 <= i < m.len() implies (#[trigger] o[i]).0 == m[i].0
                        && resolved(m[i].1, state) == Ok::<JsonV, ConfigErrorV>(o[i].1) by {
                        assert(each(i) == Ok::<(Seq<char>, JsonV), ConfigErrorV>(o[i]));
                    }
                },
                Err(e) => {
                    let i = choose|i: int|
                        0 <= i < m.len() && #[trigger] each(i) == Err::<
                            (Seq<char>, JsonV),
                            ConfigErrorV,
                        >(e) && forall|j: int| 0 <= j < i ==> #[trigger] each(j) is Ok;
                    assert(resolved(m[i].1, state) == Err::<JsonV, ConfigErrorV>(e));
                    assert forall|j: int| 0 <= j < i implies resolved(
                        (#[trigger] m[j]).1,
                        state,
                    ) is Ok by {
                        assert(each(j) is Ok);
                    }
                },
            }
        },
        _ => {},
    }
}

proof fn lemma_filed_elsewhere(
    m: Seq<(Seq<char>, JsonV)>,
    key: Seq<char>,
    name: Seq<char>,
    attributes: JsonV,
    key2: Seq<char>,
    name2: Seq<char>,
)
    requires
        ordmap::sorted(m),
        members_at(ordmap::lookup(m, key)) matches Some(o) ==> ordmap::sorted(o),
        plain_name(key2),
        plain_name(name2),
        key2 != key || name2 != name,
    ensures
        navigate(JsonV::Object(filed(m, key, name, attributes)), seq![key2, name2]) == navigate(
            JsonV::Object(m),
            seq![key2, name2],
        ),
{
    lemma_plain_segment(key2);
    lemma_plain_segment(name2);
    lemma_plain_cut(key2);
    lemma_plain_cut(name2);
    let path = seq![key2, name2];
    assert(path.skip(1) =~= seq![name2]);
    assert(seq![name2].skip(1) =~= Seq::<Seq<char>>::empty());
    assert(path[0] == key2 && seq![name2][0] == name2);
    reveal_with_fuel(navigate, 3);
    if let Some(o) = members_at(ordmap::lookup(m, key)) {
        let inner = JsonV::Object(ordmap::put(o, name, attributes));
        ordmap::lemma_put_lookup(m, key, inner, key2);
        ordmap::lemma_put_lookup(o, name, attributes, name2);
    }
}

proof fn lemma_plain_cut(s: Seq<char>)
    requires
        plain_name(s),
    ensures
        text::cut(s, '[') is None,
{
    text::lemma_first_at(s, '[', s.len() as int);
}

/// Filing a resource leaves every other resource of its kind where it is.
pub proof fn law_other_resources_stay(
    m: Seq<(Seq<char>, JsonV)>,
    address: AddressV,
    attributes: JsonV,
    other: AddressV,
)
    requires
        match address.kind {
            ResourceKind::Managed => can_file(m, address.type_id),
            ResourceKind::Data => can_file(m, "data"@) && can_file(
                members_at(ordmap::lookup(m, "data"@))->Some_0,
                address.type_id,
            ),
        },
        plain_name(other.type_id),
        plain_name(other.name),
        other.kind == address.kind,
        other.type_id != address.type_id || other.name != address.name,
    ensures
        navigate(JsonV::Object(with_resource(m, address, attributes)), location(other)) == navigate(
            JsonV::Object(m),
            location(other),
        ),
{
    match address.kind {
        ResourceKind::Managed => {
            lemma_filed_elsewhere(
                m,
                address.type_id,
                address.name,
                attributes,
                other.type_id,
                other.name,
            );
        },
        ResourceKind::Data => {
            let by_type = members_at(ordmap::lookup(m, "data"@))->Some_0;
            let now = filed(by_type, address.type_id, address.name, attributes);
            lemma_filed_elsewhere(
                by_type,
                address.type_id,
                address.name,
                attributes,
                other.type_id,
                other.name,
            );
            ordmap::lemma_put_lookup(m, "data"@, JsonV::Object(now), "data"@);
            assert(plain_name("data"@)) by {
                reveal_strlit("data");
            }
            lemma_plain_segment("data"@);
            lemma_plain_cut("data"@);
            let path = location(other);
            let rest = seq![other.type_id, other.name];
            assert(path[0] == "data"@);
            assert(path.skip(1) =~= rest);
            assert(step(JsonV::Object(with_resource(m, address, attributes)), "data"@) == Some(
                JsonV::Object(now),
            ));
            if ordmap::lookup(m, "data"@) is None {
                assert(by_type =~= Seq::<(Seq<char>, JsonV)>::empty());
                lemma_empty_leads_nowhere(rest);
            }
        },
    }
}

proof fn lemma_empty_leads_nowhere(path: Seq<Seq<char>>)
    requires
        path.len() > 0,
    ensures
        navigate(JsonV::Object(Seq::empty()), path) is None,
{
    let none = Seq::<(Seq<char>, JsonV)>::empty();
    ordmap::lemma_lookup_none(none, segment(path[0]).0);
    assert(json::member(JsonV::Object(none), segment(path[0]).0) is None);
}

/// A resource without an instance adds nothing to the map; one with instances
/// adds the attributes of the first.
pub proof fn law_first_instance_counts(rs: Seq<types::StateResource>, r: types::StateResource)
    ensures
        r.instances@.len() == 0 ==> map_of_resources(rs.push(r)) == map_of_resources(rs),
        r.instances@.len() > 0 ==> map_of_resources(rs.push(r)) == with_resource(
            map_of_resources(rs),
            r.address@,
            r.instances@[0].attributes@,
        ),
{
    assert(rs.push(r).drop_last() =~= rs);
}

/// Filing a managed resource leaves the data sources where they are, and
/// filing a data source the managed resources.
pub proof fn law_kinds_are_kept_apart(
    m: Seq<(Seq<char>, JsonV)>,
    address: AddressV,
    attributes: JsonV,
    other: AddressV,
)
    requires
        ordmap::sorted(m),
        address.kind != other.kind,
        address.kind == ResourceKind::Managed ==> address.type_id != "data"@,
        other.kind == ResourceKind::Managed ==> other.type_id != "data"@,
        plain_name(other.type_id),
    ensures
        navigate(JsonV::Object(with_resource(m, address, attributes)), location(other)) == navigate(
            JsonV::Object(m),
            location(other),
        ),
{
    let r = with_resource(m, address, attributes);
    let path = location(other);
    assert(plain_name("data"@)) by {
        reveal_strlit("data");
    }
    lemma_plain_segment(path[0]);
    lemma_plain_cut(path[0]);
    match address.kind {
        ResourceKind::Managed => {
            if let Some(o) = members_at(ordmap::lookup(m, address.type_id)) {
                let inner = JsonV::Object(ordmap::put(o, address.name, attributes));
                ordmap::lemma_put_lookup(m, address.type_id, inner, "data"@);
            }
        },
        ResourceKind::Data => {
            if let Some(o) = members_at(ordmap::lookup(m, "data"@)) {
                let inner = JsonV::Object(filed(o, address.type_id, address.name, attributes));
                ordmap::lemma_put_lookup(m, "data"@, inner, other.type_id);
            }
        },
    }
    assert(step(JsonV::Object(r), path[0]) == step(JsonV::Object(m), path[0]));
}

/// What is filed is filed under types and names, data sources one level
/// deeper.
spec fn in_file(m: Seq<(Seq<char>, JsonV)>) -> bool {
    &&& ordmap::sorted(m)
    &&& forall|k: Seq<char>|
        (#[trigger] ordmap::lookup(m, k)) matches Some(v) ==> v is Object && ordmap::sorted(
            v->Object_0,
        )
    &&& ordmap::lookup(m, "data"@) matches Some(d) ==> forall|k: Seq<char>|
        (#[trigger] ordmap::lookup(d->Object_0, k)) matches Some(v) ==> v is Object
            && ordmap::sorted(v->Object_0)
}

spec fn level(m: Seq<(Seq<char>, JsonV)>) -> bool {
    &&& ordmap::sorted(m)
    &&& forall|k: Seq<char>|
        (#[trigger] ordmap::lookup(m, k)) matches Some(v) ==> v is Object && ordmap::sorted(
            v->Object_0,
        )
}

proof fn lemma_filed_level(
    m: Seq<(Seq<char>, JsonV)>,
    key: Seq<char>,
    name: Seq<char>,
    attributes: JsonV,
)
    requires
        level(m),
    ensures
        level(filed(m, key, name, attributes)),
        can_file(m, key),
        forall|k: Seq<char>|
            k != key ==> #[trigger] ordmap::lookup(filed(m, key, name, attributes), k)
                == ordmap::lookup(m, k),
{
    let none = Seq::<(Seq<char>, JsonV)>::empty();
    let o = members_at(ordmap::lookup(m, key))->Some_0;
    assert(ordmap::sorted(none));
    let inner = JsonV::Object(ordmap::put(o, name, attributes));
    ordmap::lemma_put_sorted(o, name, attributes);
    ordmap::lemma_put_sorted(m, key, inner);
    let r = filed(m, key, name, attributes);
    assert forall|k: Seq<char>| #[trigger]
        ordmap::lookup(r, k) == if k == key {
            Some(inner)
        } else {
            ordmap::lookup(m, k)
        } by {
        ordmap::lemma_put_lookup(m, key, inner, k);
    }
}

proof fn lemma_in_file(m: Seq<(Seq<char>, JsonV)>, address: AddressV, attributes: JsonV)
    requires
        in_file(m),
        address.kind == ResourceKind::Managed ==> address.type_id != "data"@,
    ensures
        in_file(with_resource(m, address, attributes)),
        match address.kind {
            ResourceKind::Managed => can_file(m, address.type_id),
            ResourceKind::Data => can_file(m, "data"@) && can_file(
                members_at(ordmap::lookup(m, "data"@))->Some_0,
                address.type_id,
            ),
        },
{
    assert(level(m));
    match address.kind {
        ResourceKind::Managed => {
            lemma_filed_level(m, address.type_id, address.name, attributes);
        },
        ResourceKind::Data => {
            let none = Seq::<(Seq<char>, JsonV)>::empty();
            let by_type = members_at(ordmap::lookup(m, "data"@))->Some_0;
            assert(level(by_type)) by {
                if ordmap::lookup(m, "data"@) is None {
                    assert forall|k: Seq<char>|
                        (#[trigger] ordmap::lookup(none, k)) matches Some(v) ==> v is Object
                            && ordmap::sorted(v->Object_0) by {
                        ordmap::lemma_lookup_none(none, k);
                    }
                }
            }
            lemma_filed_level(by_type, address.type_id, address.name, attributes);
            let now = filed(by_type, address.type_id, address.name, attributes);
            let inner = JsonV::Object(now);
            ordmap::lemma_put_sorted(m, "data"@, inner);
            let r = with_resource(m, address, attributes);
            assert forall|k: Seq<char>| #[trigger]
                ordmap::lookup(r, k) == if k == "data"@ {
                    Some(inner)
                } else {
                    ordmap::lookup(m, k)
                } by {
                ordmap::lemma_put_lookup(m, "data"@, inner, k);
            }
        },
    }
}

/// The addresses of resources can be told apart in the map: plain names, and
/// no type that is called like the place of the data sources.
pub open spec fn fileable(rs: Seq<types::StateResource>) -> bool {
    forall|j: int|
        0 <= j < rs.len() ==> {
            let a = (#[trigger] rs[j]).address@;
            plain_name(a.type_id) && plain_name(a.name) && (a.kind == ResourceKind::Managed
                ==> a.type_id != "data"@)
        }
}

proof fn lemma_map_in_file(rs: Seq<types::StateResource>)
    requires
        fileable(rs),
    ensures
        in_file(map_of_resources(rs)),
    decreases rs.len(),
{
    if rs.len() == 0 {
        let none = Seq::<(Seq<char>, JsonV)>::empty();
        assert forall|k: Seq<char>| (#[trigger] ordmap::lookup(none, k)) is None by {
            ordmap::lemma_lookup_none(none, k);
        }
    } else {
        let front = rs.drop_last();
        assert(fileable(front)) by {
            assert forall|j: int| 0 <= j < front.len() implies {
                let a = (#[trigger] front[j]).address@;
                plain_name(a.type_id) && plain_name(a.name) && (a.kind == ResourceKind::Managed
                    ==> a.type_id != "data"@)
            } by {
                assert(front[j] == rs[j]);
            }
        }
        lemma_map_in_file(front);
        let l = rs[rs.len() - 1];
        assert(rs.last() == l);
        if l.instances@.len() > 0 {
            lemma_in_file(map_of_resources(front), l.address@, l.instances@[0].attributes@);
        }
    }
}

/// What the address of a resource of the state leads to is what its first
/// instance holds, unless a later resource has the same address.
pub proof fn law_state_is_found(rs: Seq<types::StateResource>, i: int)
    requires
        fileable(rs),
        0 <= i < rs.len(),
        rs[i].instances@.len() > 0,
        forall|j: int|
            i < j < rs.len() ==> (#[trigger] rs[j]).instances@.len() == 0 || rs[j].address@.kind
                != rs[i].address@.kind || rs[j].address@.type_id != rs[i].address@.type_id
                || rs[j].address@.name != rs[i].address@.name,
    ensures
        navigate(JsonV::Object(map_of_resources(rs)), location(rs[i].address@)) == Some(
            rs[i].instances@[0].attributes@,
        ),
    decreases rs.len(),
{
    let n = rs.len() - 1;
    let front = rs.drop_last();
    let l = rs[n];
    assert(rs.last() == l);
    assert(fileable(front)) by {
        assert forall|j: int| 0 <= j < front.len() implies {
            let a = (#[trigger] front[j]).address@;
            plain_name(a.type_id) && plain_name(a.name) && (a.kind == ResourceKind::Managed
                ==> a.type_id != "data"@)
        } by {
            assert(front[j] == rs[j]);
        }
    }
    lemma_map_in_file(front);
    let m = map_of_resources(front);
    let here = rs[i].address@;
    if l.instances@.len() > 0 {
        lemma_in_file(m, l.address@, l.instances@[0].attributes@);
    }
    if i == n {
        let none = Seq::<Seq<char>>::empty();
        law_filed_attributes_are_found(m, here, l.instances@[0].attributes@, none);
        assert(location(here) + none =~= location(here));
    } else {
        assert forall|j: int| i < j < front.len() implies (#[trigger] front[j]).instances@.len() == 0
            || front[j].address@.kind != front[i].address@.kind || front[j].address@.type_id
            != front[i].address@.type_id || front[j].address@.name != front[i].address@.name by {
            assert(front[j] == rs[j]);
        }
        assert(front[i] == rs[i]);
        law_state_is_found(front, i);
        if l.instances@.len() > 0 {
            let attributes = l.instances@[0].attributes@;
            if l.address@.kind == here.kind {
                law_other_resources_stay(m, l.address@, attributes, here);
            } else {
                law_kinds_are_kept_apart(m, l.address@, attributes, here);
            }
        }
    }
}

} // verus!
