//! The meta-arguments of a resource block.
//!
//! A resource block is one flat object in which meta-arguments and provider
//! attributes look alike. The set of meta-arguments is closed: every one of
//! them leaves the attributes here, the two that are implemented as typed
//! values, the others as a refusal.
use vstd::prelude::*;
use vstd::string::*;
use crate::config::{ConfigError, ConfigErrorV};
use crate::gather;
use crate::json;
use crate::json::{Json, JsonV};
use crate::ordmap;
use crate::ordmap::StrMap;
use crate::text;
use crate::text::same;
use crate::types;
use crate::types::{AddressV, MetaV, ProviderInstance, ResourceAddress, ResourceKind, ResourceMeta};

verus! {

// ── What splitting gives ───────────────────────────────────────────

/// What ignoring a meta-argument that is not implemented would do.
pub open spec fn consequence_of(key: Seq<char>) -> Option<Seq<char>> {
    if key == "count"@ {
        Some("Ignoring it would create ONE resource where N were declared."@)
    } else if key == "for_each"@ {
        Some("Ignoring it would create ONE resource where one per element was declared."@)
    } else if key == "lifecycle"@ {
        Some(
            "Ignoring it would discard `prevent_destroy`, `ignore_changes` and `create_before_destroy` — a `prevent_destroy` resource could be destroyed."@,
        )
    } else if key == "provisioner"@ {
        Some("Ignoring it would report success for a resource whose provisioning steps never ran."@)
    } else if key == "connection"@ {
        Some("Ignoring it would discard the connection settings its provisioners require."@)
    } else {
        None
    }
}

/// A meta-argument, implemented or not.
pub open spec fn is_meta(key: Seq<char>) -> bool {
    consequence_of(key) is Some || key == "provider"@ || key == "depends_on"@
}

pub open spec fn malformed(address: Seq<char>, key: Seq<char>, detail: Seq<char>) -> ConfigErrorV {
    ConfigErrorV::MalformedMeta { address, key, detail }
}

pub open spec fn not_an_address(address: Seq<char>, entry: Seq<char>) -> ConfigErrorV {
    malformed(
        address,
        "depends_on"@,
        "`"@ + entry + "` is not a `[data.]<type>.<name>` resource address"@,
    )
}

/// What stands behind a `[` is one key and the `]` that closes it; a key in
/// quotes may hold brackets.
pub open spec fn closes_index(tail: Seq<char>) -> bool {
    tail.len() > 0 && tail.last() == ']' && (text::first_at(tail, ']') == tail.len() - 1 || (tail.len()
        >= 3 && tail[0] == '"' && text::first_at(tail.skip(1), '"') == tail.len() - 3))
}

/// An entry without the index at its end.
pub open spec fn without_index(entry: Seq<char>) -> Seq<char> {
    match text::cut(entry, '[') {
        Some((front, tail)) => if closes_index(tail) {
            front
        } else {
            entry
        },
        None => entry,
    }
}

/// The address that a `depends_on` entry names: `[data.]<type>.<name>`, an
/// index behind the name left out.
pub open spec fn dependency(address: Seq<char>, entry: Seq<char>) -> Result<AddressV, ConfigErrorV> {
    if text::stands_at(entry, "module."@, 0) {
        Err(
            malformed(
                address,
                "depends_on"@,
                "`"@ + entry
                    + "` depends on a module; magma does not expand module blocks, so this ordering cannot be honoured — depend on the concrete resources instead"@,
            ),
        )
    } else {
        let is_data = text::stands_at(entry, "data."@, 0);
        let kind = if is_data {
            ResourceKind::Data
        } else {
            ResourceKind::Managed
        };
        let rest = if is_data {
            entry.skip("data."@.len() as int)
        } else {
            entry
        };
        let segs = text::pieces(without_index(rest), '.');
        if segs.len() != 2 {
            Err(not_an_address(address, entry))
        } else {
            let name = text::pieces(segs[1], '[')[0];
            if segs[0].len() == 0 || name.len() == 0 {
                Err(not_an_address(address, entry))
            } else {
                Ok(types::root_address(kind, segs[0], name))
            }
        }
    }
}

/// The addresses that the entries name, up to the first error.
pub open spec fn dependencies(address: Seq<char>, xs: Seq<JsonV>) -> Result<
    Seq<AddressV>,
    ConfigErrorV,
>
    decreases xs.len(),
{
    if xs.len() == 0 {
        Ok(Seq::empty())
    } else {
        match dependencies(address, xs.drop_last()) {
            Ok(prev) => match xs.last() {
                JsonV::String(s) => match dependency(address, s) {
                    Ok(a) => Ok(prev.push(a)),
                    Err(e) => Err(e),
                },
                v => Err(
                    malformed(
                        address,
                        "depends_on"@,
                        "expected an address string, got "@ + json::json_text(v),
                    ),
                ),
            },
            Err(e) => Err(e),
        }
    }
}

/// What one member of a block adds to the meta-arguments before it.
pub open spec fn meta_step(address: Seq<char>, meta: MetaV, key: Seq<char>, v: JsonV) -> Result<
    MetaV,
    ConfigErrorV,
> {
    match consequence_of(key) {
        Some(consequence) => Err(ConfigErrorV::UnimplementedMeta { address, key, consequence }),
        None => if key == "provider"@ {
            match v {
                JsonV::String(s) => match types::provider_instance(s) {
                    Ok(p) => Ok(MetaV { provider: Some(p), ..meta }),
                    Err(source) => Err(ConfigErrorV::ProviderMeta { address, source }),
                },
                _ => Err(
                    malformed(address, "provider"@, "expected a string, got "@ + json::json_text(v)),
                ),
            }
        } else if key == "depends_on"@ {
            match v {
                JsonV::Array(xs) => match dependencies(address, xs) {
                    Ok(ds) => Ok(MetaV { depends_on: meta.depends_on + ds, ..meta }),
                    Err(e) => Err(e),
                },
                _ => Err(
                    malformed(
                        address,
                        "depends_on"@,
                        "expected a list of address strings, got "@ + json::json_text(v),
                    ),
                ),
            }
        } else {
            Ok(meta)
        },
    }
}

/// The meta-arguments of a block, its members taken in order, up to the
/// first error.
pub open spec fn meta_of(address: Seq<char>, m: Seq<(Seq<char>, JsonV)>) -> Result<
    MetaV,
    ConfigErrorV,
>
    decreases m.len(),
{
    if m.len() == 0 {
        Ok(types::no_meta())
    } else {
        match meta_of(address, m.drop_last()) {
            Ok(meta) => meta_step(address, meta, m.last().0, m.last().1),
            Err(e) => Err(e),
        }
    }
}

/// The members of a block that are no meta-arguments.
pub open spec fn attributes_of(m: Seq<(Seq<char>, JsonV)>) -> Seq<(Seq<char>, JsonV)> {
    m.filter(|e: (Seq<char>, JsonV)| !is_meta(e.0))
}

// ── Splitting ──────────────────────────────────────────────────────

/// What ignoring a meta-argument would do, for those that are not
/// implemented.
fn unimplemented_meta(key: &str) -> (r: Option<(&'static str, &'static str)>)
    ensures
        match r {
            Some((k, c)) => k@ == key@ && consequence_of(key@) == Some(c@),
            None => consequence_of(key@) is None,
        },
{
    if same(key, "count") {
        Some(("count", "Ignoring it would create ONE resource where N were declared."))
    } else if same(key, "for_each") {
        Some(
            (
                "for_each",
                "Ignoring it would create ONE resource where one per element was declared.",
            ),
        )
    } else if same(key, "lifecycle") {
        Some(
            (
                "lifecycle",
                "Ignoring it would discard `prevent_destroy`, `ignore_changes` and `create_before_destroy` — a `prevent_destroy` resource could be destroyed.",
            ),
        )
    } else if same(key, "provisioner") {
        Some(
            (
                "provisioner",
                "Ignoring it would report success for a resource whose provisioning steps never ran.",
            ),
        )
    } else if same(key, "connection") {
        Some(
            (
                "connection",
                "Ignoring it would discard the connection settings its provisioners require.",
            ),
        )
    } else {
        None
    }
}

fn malformed_meta(address: &str, key: &'static str, a: &str, b: &str) -> (r: ConfigError)
    ensures
        r@ == malformed(address@, key@, a@ + b@),
{
    ConfigError::MalformedMeta { address: address.to_owned(), key, detail: text::join2(a, b) }
}

fn not_address(address: &str, entry: &str) -> (r: ConfigError)
    ensures
        r@ == not_an_address(address@, entry@),
{
    ConfigError::MalformedMeta {
        address: address.to_owned(),
        key: "depends_on",
        detail: text::join3("`", entry, "` is not a `[data.]<type>.<name>` resource address"),
    }
}

/// An entry without the index at its end.
fn strip_index(entry: &str) -> (r: String)
    ensures
        r@ == without_index(entry@),
{
    match text::split_once(entry, '[') {
        Some((front, tail)) => {
            let v = text::chars_of(tail.as_str());
            let n = v.len();
            proof {
                assert(v@.skip(0) =~= v@);
            }
            if n > 0 && v[n - 1] == ']' && (text::find_char(&v, ']', 0) == n - 1 || (n >= 3 && v[0]
                == '"' && text::find_char(&v, '"', 1) == n - 2)) {
                front
            } else {
                entry.to_owned()
            }
        },
        None => entry.to_owned(),
    }
}

/// The address that a `depends_on` entry names.
pub fn parse_depends_on_entry(address: &str, entry: &str) -> (r: Result<
    ResourceAddress,
    ConfigError,
>)
    ensures
        match r {
            Ok(a) => dependency(address@, entry@) == Ok::<AddressV, ConfigErrorV>(a@),
            Err(e) => dependency(address@, entry@) == Err::<AddressV, ConfigErrorV>(e@),
        },
{
    if text::starts_with(entry, "module.") {
        let detail = text::join3(
            "`",
            entry,
            "` depends on a module; magma does not expand module blocks, so this ordering cannot be honoured — depend on the concrete resources instead",
        );
        return Err(
            ConfigError::MalformedMeta { address: address.to_owned(), key: "depends_on", detail },
        );
    }
    let (kind, rest) = match text::strip_prefix(entry, "data.") {
        Some(rest) => (ResourceKind::Data, rest),
        None => (ResourceKind::Managed, entry.to_owned()),
    };
    let bare = strip_index(rest.as_str());
    let segs = text::split(bare.as_str(), '.');
    proof {
        assert(text::texts(segs@) == text::pieces(bare@, '.'));
    }
    if segs.len() != 2 {
        return Err(not_address(address, entry));
    }
    let parts = text::split(segs[1].as_str(), '[');
    let type_id = segs[0].clone();
    let name = parts[0].clone();
    proof {
        assert(text::texts(segs@)[0] == type_id@);
        assert(text::texts(segs@)[1] == segs@[1]@);
        assert(text::texts(parts@)[0] == name@);
    }
    if type_id.as_str().is_empty() || name.as_str().is_empty() {
        return Err(not_address(address, entry));
    }
    Ok(ResourceAddress::root(kind, type_id, name))
}

#[verifier::loop_isolation(false)]
fn parse_depends_on(address: &str, xs: &Vec<Json>) -> (r: Result<Vec<ResourceAddress>, ConfigError>)
    ensures
        match r {
            Ok(ds) => dependencies(address@, json::list_view(xs@)) == Ok::<
                Seq<AddressV>,
                ConfigErrorV,
            >(types::addresses(ds@)),
            Err(e) => dependencies(address@, json::list_view(xs@)) == Err::<
                Seq<AddressV>,
                ConfigErrorV,
            >(e@),
        },
{
    let mut out: Vec<ResourceAddress> = Vec::new();
    let mut i: usize = 0;
    let ghost all = json::list_view(xs@);
    proof {
        assert(all.take(0) =~= Seq::empty());
        assert(types::addresses(out@) =~= Seq::empty());
    }
    while i < xs.len()
        invariant
            i <= xs@.len(),
            dependencies(address@, all.take(i as int)) == Ok::<Seq<AddressV>, ConfigErrorV>(
                types::addresses(out@),
            ),
        decreases xs.len() - i,
    {
        proof {
            let b = all.take(i + 1);
            assert(b.drop_last() =~= all.take(i as int));
            assert(b.last() == xs@[i as int]@);
        }
        let one = match xs[i].as_str() {
            Some(s) => parse_depends_on_entry(address, s),
            None => Err(
                malformed_meta(
                    address,
                    "depends_on",
                    "expected an address string, got ",
                    xs[i].text().as_str(),
                ),
            ),
        };
        match one {
            Ok(a) => {
                proof {
                    assert(types::addresses(out@.push(a)) =~= types::addresses(out@).push(a@));
                }
                out.push(a);
            },
            Err(e) => {
                proof {
                    lemma_dependencies_error(address@, all, i + 1);
                }
                return Err(e);
            },
        }
        i += 1;
    }
    proof {
        assert(all.take(all.len() as int) =~= all);
    }
    Ok(out)
}

/// Split a resource block into its meta-arguments and the attributes that
/// remain. A block that is no object is returned as it is, without
/// meta-arguments. `address` only names the resource in errors.
#[verifier::loop_isolation(false)]
pub fn split_resource_body(address: &str, body: &Json) -> (r: Result<
    (ResourceMeta, Json),
    ConfigError,
>)
    ensures
        match body@ {
            JsonV::Object(m) => match meta_of(address@, m) {
                Ok(meta) => r is Ok && r->Ok_0.0@ == meta && r->Ok_0.1@ == JsonV::Object(
                    attributes_of(m),
                ),
                Err(e) => r is Err && r->Err_0@ == e,
            },
            _ => r is Ok && r->Ok_0.0@ == types::no_meta() && r->Ok_0.1@ == body@,
        },
{
    let m = match body {
        Json::Object(m) => m,
        _ => {
            return Ok((ResourceMeta::default(), body.clone()));
        },
    };
    let mut meta = ResourceMeta::default();
    let mut attrs: StrMap<Json> = StrMap::new();
    let mut i: usize = 0;
    let ghost all = json::object_view(m@);
    let ghost keep = |e: (Seq<char>, JsonV)| !is_meta(e.0);
    proof {
        json::lemma_object_view(*m);
        assert(all.take(0) =~= Seq::empty());
        assert(all.take(0).filter(keep) =~= Seq::empty()) by {
            reveal(Seq::filter);
        }
        assert(json::object_view(attrs@) =~= Seq::empty());
    }
    while i < m.entries.len()
        invariant
            i <= m.entries@.len(),
            meta_of(address@, all.take(i as int)) == Ok::<MetaV, ConfigErrorV>(meta@),
            json::object_view(attrs@) == all.take(i as int).filter(keep),
        decreases m.entries.len() - i,
    {
        let key = m.entries[i].0.as_str();
        let value = &m.entries[i].1;
        let ghost old_attrs = attrs@;
        proof {
            let b = all.take(i + 1);
            assert(b.drop_last() =~= all.take(i as int));
            assert(b.last() == (key@, value@));
            assert(b.filter(keep) == (if keep(b.last()) {
                b.drop_last().filter(keep).push(b.last())
            } else {
                b.drop_last().filter(keep)
            })) by {
                reveal(Seq::filter);
            }
        }
        if let Some((k, consequence)) = unimplemented_meta(key) {
            proof {
                lemma_meta_error(address@, all, i + 1);
            }
            return Err(
                ConfigError::UnimplementedMeta { address: address.to_owned(), key: k, consequence },
            );
        }
        if same(key, "provider") {
            match value.as_str() {
                Some(s) => match ProviderInstance::parse(s) {
                    Ok(p) => {
                        meta.provider = Some(p);
                    },
                    Err(source) => {
                        proof {
                            lemma_meta_error(address@, all, i + 1);
                        }
                        return Err(
                            ConfigError::ProviderMeta { address: address.to_owned(), source },
                        );
                    },
                },
                None => {
                    proof {
                        lemma_meta_error(address@, all, i + 1);
                    }
                    return Err(
                        malformed_meta(
                            address,
                            "provider",
                            "expected a string, got ",
                            value.text().as_str(),
                        ),
                    );
                },
            }
        } else if same(key, "depends_on") {
            if let Json::Array(xs) = value {
                proof {
                    json::lemma_array_view(*xs);
                }
                match parse_depends_on(address, xs) {
                    Ok(mut ds) => {
                        let ghost had = meta.depends_on@;
                        let ghost got = ds@;
                        meta.depends_on.append(&mut ds);
                        proof {
                            assert(types::addresses(had + got) =~= types::addresses(had)
                                + types::addresses(got));
                        }
                    },
                    Err(e) => {
                        proof {
                            lemma_meta_error(address@, all, i + 1);
                        }
                        return Err(e);
                    },
                }
            } else {
                proof {
                    lemma_meta_error(address@, all, i + 1);
                }
                return Err(
                    malformed_meta(
                        address,
                        "depends_on",
                        "expected a list of address strings, got ",
                        value.text().as_str(),
                    ),
                );
            }
        } else {
            let v: Json = value.clone();
            attrs.entries.push((m.entries[i].0.clone(), v));
            proof {
                assert(json::object_view(attrs@) =~= json::object_view(old_attrs).push((key@, v@)));
            }
        }
        i += 1;
    }
    proof {
        assert(all.take(all.len() as int) =~= all);
        json::lemma_object_view(attrs);
    }
    Ok((meta, Json::Object(attrs)))
}

proof fn lemma_dependencies_error(address: Seq<char>, xs: Seq<JsonV>, n: int)
    requires
        0 <= n <= xs.len(),
        dependencies(address, xs.take(n)) is Err,
    ensures
        dependencies(address, xs) == dependencies(address, xs.take(n)),
    decreases xs.len() - n,
{
    if n == xs.len() {
        assert(xs.take(n) =~= xs);
    } else {
        assert(xs.take(n + 1).drop_last() =~= xs.take(n));
        lemma_dependencies_error(address, xs, n + 1);
    }
}

proof fn lemma_meta_error(address: Seq<char>, m: Seq<(Seq<char>, JsonV)>, n: int)
    requires
        0 <= n <= m.len(),
        meta_of(address, m.take(n)) is Err,
    ensures
        meta_of(address, m) == meta_of(address, m.take(n)),
    decreases m.len() - n,
{
    if n == m.len() {
        assert(m.take(n) =~= m);
    } else {
        assert(m.take(n + 1).drop_last() =~= m.take(n));
        lemma_meta_error(address, m, n + 1);
    }
}

// ── Laws ───────────────────────────────────────────────────────────

/// No meta-argument is left among the attributes, and every other member of
/// the block is.
pub proof fn law_attributes_are_the_rest(m: Seq<(Seq<char>, JsonV)>, e: (Seq<char>, JsonV))
    ensures
        attributes_of(m).contains(e) <==> m.contains(e) && !is_meta(e.0),
{
    let keep = |e: (Seq<char>, JsonV)| !is_meta(e.0);
    if m.contains(e) && keep(e) {
        let i = choose|i: int| 0 <= i < m.len() && m[i] == e;
        lemma_filter_keeps(m, keep, i);
    }
    if attributes_of(m).contains(e) {
        let i = choose|i: int| 0 <= i < attributes_of(m).len() && attributes_of(m)[i] == e;
        lemma_filter_from(m, keep, i);
    }
}

proof fn lemma_filter_keeps(
    m: Seq<(Seq<char>, JsonV)>,
    keep: spec_fn((Seq<char>, JsonV)) -> bool,
    i: int,
)
    requires
        0 <= i < m.len(),
        keep(m[i]),
    ensures
        m.filter(keep).contains(m[i]),
    decreases m.len(),
{
    reveal(Seq::filter);
    let sub = m.drop_last().filter(keep);
    if i == m.len() - 1 {
        assert(m.filter(keep)[sub.len() as int] == m[i]);
    } else {
        lemma_filter_keeps(m.drop_last(), keep, i);
        let j = choose|j: int| 0 <= j < sub.len() && sub[j] == m[i];
        assert(m.filter(keep)[j] == m[i]);
    }
}

proof fn lemma_filter_from(
    m: Seq<(Seq<char>, JsonV)>,
    keep: spec_fn((Seq<char>, JsonV)) -> bool,
    i: int,
)
    requires
        0 <= i < m.filter(keep).len(),
    ensures
        m.contains(m.filter(keep)[i]),
        keep(m.filter(keep)[i]),
    decreases m.len(),
{
    reveal(Seq::filter);
    let sub = m.drop_last().filter(keep);
    if i < sub.len() {
        lemma_filter_from(m.drop_last(), keep, i);
        let j = choose|j: int| 0 <= j < m.drop_last().len() && m.drop_last()[j] == sub[i];
        assert(m[j] == sub[i]);
    } else {
        assert(m[m.len() - 1] == m.filter(keep)[i]);
    }
}

/// A block without meta-arguments passes through as it is.
pub proof fn law_plain_block_untouched(address: Seq<char>, m: Seq<(Seq<char>, JsonV)>)
    requires
        forall|i: int| #![trigger m[i]] 0 <= i < m.len() ==> !is_meta(m[i].0),
    ensures
        meta_of(address, m) == Ok::<MetaV, ConfigErrorV>(types::no_meta()),
        attributes_of(m) == m,
    decreases m.len(),
{
    reveal(Seq::filter);
    if m.len() > 0 {
        let p = m.drop_last();
        assert forall|i: int| #![trigger p[i]] 0 <= i < p.len() implies !is_meta(p[i].0) by {
            assert(p[i] == m[i]);
        }
        law_plain_block_untouched(address, p);
        assert(!is_meta(m[m.len() - 1].0));
        assert(p.push(m.last()) =~= m);
    }
}

/// A meta-argument that is not implemented is always refused, whatever else
/// the block holds.
pub proof fn law_unimplemented_meta_refused(address: Seq<char>, m: Seq<(Seq<char>, JsonV)>, i: int)
    requires
        0 <= i < m.len(),
        consequence_of(m[i].0) is Some,
    ensures
        meta_of(address, m) is Err,
    decreases m.len(),
{
    if i < m.len() - 1 {
        law_unimplemented_meta_refused(address, m.drop_last(), i);
    }
}

/// What an entry of `depends_on` stands for.
spec fn entry_dependency(address: Seq<char>, v: JsonV) -> Result<AddressV, ConfigErrorV> {
    match v {
        JsonV::String(s) => dependency(address, s),
        _ => Err(
            malformed(
                address,
                "depends_on"@,
                "expected an address string, got "@ + json::json_text(v),
            ),
        ),
    }
}

proof fn lemma_dependencies_gather(address: Seq<char>, xs: Seq<JsonV>)
    ensures
        gather::gathered(
            dependencies(address, xs),
            xs.len() as int,
            |i: int| entry_dependency(address, xs[i]),
        ),
    decreases xs.len(),
{
    if xs.len() > 0 {
        let a = xs.drop_last();
        lemma_dependencies_gather(address, a);
        let each = |i: int| entry_dependency(address, xs[i]);
        let part = |i: int| entry_dependency(address, a[i]);
        assert(gather::gathered(dependencies(address, a), a.len() as int, part));
        assert(gather::gathered(dependencies(address, a), a.len() as int, each)) by {
            assert forall|i: int| 0 <= i < a.len() implies #[trigger] each(i) == part(i) by {}
            match dependencies(address, a) {
                Ok(ds) => {
                    assert forall|i: int| 0 <= i < a.len() implies each(i) == Ok::<
                        AddressV,
                        ConfigErrorV,
                    >(#[trigger] ds[i]) by {
                        assert(part(i) == Ok::<AddressV, ConfigErrorV>(ds[i]));
                    }
                },
                Err(e) => {
                    let i = choose|i: int|
                        0 <= i < a.len() && #[trigger] part(i) == Err::<AddressV, ConfigErrorV>(e)
                            && forall|j: int| 0 <= j < i ==> #[trigger] part(j) is Ok;
                    assert(each(i) == Err::<AddressV, ConfigErrorV>(e));
                    assert forall|j: int| 0 <= j < i implies #[trigger] each(j) is Ok by {
                        assert(part(j) is Ok);
                    }
                },
            }
        }
        gather::lemma_gathered_push(
            dependencies(address, a),
            dependencies(address, xs),
            xs.len() - 1,
            each,
        );
    }
}

/// Every entry of `depends_on` is a dependency, in order, and must be a string
/// that is an address; the first that is not is the error of the whole.
pub proof fn law_every_entry_is_a_dependency(address: Seq<char>, xs: Seq<JsonV>)
    ensures
        match dependencies(address, xs) {
            Ok(ds) => ds.len() == xs.len() && forall|i: int|
                0 <= i < xs.len() ==> (xs[i] is String && dependency(address, xs[i]->String_0)
                    == Ok::<AddressV, ConfigErrorV>(#[trigger] ds[i])),
            Err(e) => exists|i: int|
                0 <= i < xs.len() && (if (#[trigger] xs[i]) is String {
                    dependency(address, xs[i]->String_0) == Err::<AddressV, ConfigErrorV>(e)
                } else {
                    e is MalformedMeta
                }) && (forall|j: int|
                    0 <= j < i ==> (#[trigger] xs[j]) is String && dependency(
                        address,
                        xs[j]->String_0,
                    ) is Ok),
        },
{
    lemma_dependencies_gather(address, xs);
    let each = |i: int| entry_dependency(address, xs[i]);
    match dependencies(address, xs) {
        Ok(ds) => {
            assert forall|i: int| 0 <= i < xs.len() implies ((#[trigger] xs[i]) is String
                && dependency(address, xs[i]->String_0) == Ok::<AddressV, ConfigErrorV>(ds[i])) by {
                assert(each(i) == Ok::<AddressV, ConfigErrorV>(ds[i]));
            }
        },
        Err(e) => {
            let i = choose|i: int|
                0 <= i < xs.len() && #[trigger] each(i) == Err::<AddressV, ConfigErrorV>(e)
                    && forall|j: int| 0 <= j < i ==> #[trigger] each(j) is Ok;
            assert(entry_dependency(address, xs[i]) == Err::<AddressV, ConfigErrorV>(e));
            assert forall|j: int| 0 <= j < i implies (#[trigger] xs[j]) is String && dependency(
                address,
                xs[j]->String_0,
            ) is Ok by {
                assert(each(j) is Ok);
            }
        },
    }
}

/// A name of an address: nothing that separates or opens.
pub open spec fn address_part(s: Seq<char>) -> bool {
    s.len() > 0 && !s.contains('.') && !s.contains('[')
}

proof fn lemma_front_part(t: Seq<char>, rest: Seq<char>, word: Seq<char>)
    requires
        !t.contains('.'),
        !word.contains('.'),
        t != word,
    ensures
        !text::stands_at(t + seq!['.'] + rest, word + seq!['.'], 0),
{
    let s = t + seq!['.'] + rest;
    let w = word + seq!['.'];
    if text::stands_at(s, w, 0) {
        let f = s.subrange(0, w.len() as int);
        assert forall|i: int| 0 <= i < w.len() implies s[i] == w[i] by {
            assert(f[i] == s[i]);
        }
        let n = word.len() as int;
        let k = t.len() as int;
        assert(w[n] == '.');
        assert(s[k] == '.');
        if k < n {
            assert(word[k] == '.');
            assert(word.contains('.'));
        } else if n < k {
            assert(t[n] == '.');
            assert(t.contains('.'));
        } else {
            assert forall|i: int| 0 <= i < n implies t[i] == word[i] by {
                assert(s[i] == t[i] && w[i] == word[i]);
            }
            assert(t =~= word);
        }
    }
}

proof fn lemma_two_parts(t: Seq<char>, n: Seq<char>)
    requires
        address_part(t),
        address_part(n),
    ensures
        text::pieces(without_index(t + seq!['.'] + n), '.') == seq![t, n],
        text::pieces(n, '[')[0] == n,
{
    let s = t + seq!['.'] + n;
    assert(!s.contains('[')) by {
        if s.contains('[') {
            let i = choose|i: int| 0 <= i < s.len() && s[i] == '[';
            if i < t.len() {
                assert(t[i] == '[');
                assert(t.contains('['));
            } else {
                assert(n[i - t.len() - 1] == '[');
                assert(n.contains('['));
            }
        }
    }
    text::law_cut_at_the_first(s, '[', s);
    text::law_cut_at_the_first(t, '.', n);
    text::law_cut_at_the_first(n, '.', n);
    text::law_cut_at_the_first(n, '[', n);
    assert(seq![t] + seq![n] =~= seq![t, n]);
}

/// A dependency `type.name` is on the resource of that type and name, one
/// that begins with `data.` on the data source.
pub proof fn law_dependencies_name_resources(address: Seq<char>, t: Seq<char>, n: Seq<char>)
    requires
        address_part(t),
        address_part(n),
    ensures
        t != "module"@ && t != "data"@ ==> dependency(address, t + seq!['.'] + n) == Ok::<
            AddressV,
            ConfigErrorV,
        >(types::root_address(ResourceKind::Managed, t, n)),
        dependency(address, "data."@ + (t + seq!['.'] + n)) == Ok::<AddressV, ConfigErrorV>(
            types::root_address(ResourceKind::Data, t, n),
        ),
{
    reveal_strlit("module");
    reveal_strlit("module.");
    reveal_strlit("data");
    reveal_strlit("data.");
    let e = t + seq!['.'] + n;
    let d = "data."@ + e;
    assert("module."@ =~= "module"@ + seq!['.']);
    assert("data."@ =~= "data"@ + seq!['.']);
    lemma_two_parts(t, n);
    if t != "module"@ && t != "data"@ {
        lemma_front_part(t, n, "module"@);
        lemma_front_part(t, n, "data"@);
    }
    assert(d.subrange(0, "data."@.len() as int) =~= "data."@);
    assert(d =~= "data"@ + seq!['.'] + e);
    lemma_front_part("data"@, e, "module"@);
    assert(d.skip("data."@.len() as int) =~= e);
}

/// An index at the end of a dependency does not matter: the dependency is on
/// the resource as a whole.
pub proof fn law_indices_do_not_matter(address: Seq<char>, t: Seq<char>, n: Seq<char>, index: Seq<char>)
    requires
        address_part(t),
        address_part(n),
        t != "module"@,
        t != "data"@,
        !index.contains(']'),
    ensures
        dependency(address, t + seq!['.'] + n + seq!['['] + index.push(']')) == Ok::<
            AddressV,
            ConfigErrorV,
        >(types::root_address(ResourceKind::Managed, t, n)),
{
    reveal_strlit("module");
    reveal_strlit("module.");
    reveal_strlit("data");
    reveal_strlit("data.");
    let front = t + seq!['.'] + n;
    let tail = index.push(']');
    let e = front + seq!['['] + tail;
    assert("module."@ =~= "module"@ + seq!['.']);
    assert("data."@ =~= "data"@ + seq!['.']);
    let rest = n + seq!['['] + tail;
    assert(e =~= t + seq!['.'] + rest);
    lemma_front_part(t, rest, "module"@);
    lemma_front_part(t, rest, "data"@);
    lemma_two_parts(t, n);
    assert(!front.contains('[')) by {
        if front.contains('[') {
            let i = choose|i: int| 0 <= i < front.len() && front[i] == '[';
            if i < t.len() {
                assert(t[i] == '[');
                assert(t.contains('['));
            } else {
                assert(n[i - t.len() - 1] == '[');
                assert(n.contains('['));
            }
        }
    }
    text::law_cut_at_the_first(front, '[', tail);
    text::law_cut_at_the_first(front, '[', front);
    assert forall|j: int| 0 <= j < tail.len() - 1 implies tail[j] != ']' by {
        if tail[j] == ']' {
            assert(index[j] == ']');
            assert(index.contains(']'));
        }
    }
    text::lemma_first_at(tail, ']', tail.len() - 1);
    assert(closes_index(tail));
}

/// Depending on a module is refused.
pub proof fn law_modules_are_no_dependency(address: Seq<char>, rest: Seq<char>)
    ensures
        dependency(address, "module."@ + rest) is Err,
{
    assert(("module."@ + rest).subrange(0, "module."@.len() as int) =~= "module."@);
}

/// A member that a block may have: no argument that is not implemented, a
/// `provider` that is a provider's name, a `depends_on` that is a list of
/// addresses.
pub open spec fn member_ok(address: Seq<char>, e: (Seq<char>, JsonV)) -> bool {
    &&& consequence_of(e.0) is None
    &&& e.0 == "provider"@ ==> e.1 is String && types::provider_instance(e.1->String_0) is Ok
    &&& e.0 == "depends_on"@ ==> e.1 is Array && dependencies(address, e.1->Array_0) is Ok
}

/// A block's meta-arguments are read exactly where each of its members may be
/// there. The provider and the dependencies are those of the members of that
/// name, and none where there is no such member.
pub proof fn law_meta_is_read_by_name(address: Seq<char>, m: Seq<(Seq<char>, JsonV)>)
    requires
        forall|i: int, j: int|
            0 <= i < j < m.len() ==> (#[trigger] m[i]).0 != (#[trigger] m[j]).0,
    ensures
        meta_of(address, m) is Ok <==> forall|i: int|
            0 <= i < m.len() ==> member_ok(address, #[trigger] m[i]),
        meta_of(address, m) matches Ok(meta) ==> {
            &&& forall|i: int|
                0 <= i < m.len() && (#[trigger] m[i]).0 == "provider"@ ==> meta.provider
                    == Some(m[i].1->String_0)
            &&& (forall|i: int| 0 <= i < m.len() ==> (#[trigger] m[i]).0 != "provider"@)
                ==> meta.provider is None
            &&& forall|i: int|
                0 <= i < m.len() && (#[trigger] m[i]).0 == "depends_on"@ ==> dependencies(
                    address,
                    m[i].1->Array_0,
                ) == Ok::<Seq<AddressV>, ConfigErrorV>(meta.depends_on)
            &&& (forall|i: int| 0 <= i < m.len() ==> (#[trigger] m[i]).0 != "depends_on"@)
                ==> meta.depends_on.len() == 0
        },
    decreases m.len(),
{
    reveal_strlit("provider");
    reveal_strlit("depends_on");
    if m.len() > 0 {
        let front = m.drop_last();
        let n = m.len() - 1;
        let l = m[n];
        assert(m.last() == l);
        assert forall|i: int| 0 <= i < n implies #[trigger] front[i] == m[i] && m[i].0 != l.0 by {}
        law_meta_is_read_by_name(address, front);
        assert("provider"@ != "depends_on"@) by {
            assert("provider"@[0] == 'p' && "depends_on"@[0] == 'd');
        }
        assert((forall|i: int| 0 <= i < m.len() ==> member_ok(address, #[trigger] m[i])) <==> (
        member_ok(address, l) && forall|i: int|
            0 <= i < front.len() ==> member_ok(address, #[trigger] front[i]))) by {
            if forall|i: int| 0 <= i < m.len() ==> member_ok(address, #[trigger] m[i]) {
                assert forall|i: int| 0 <= i < front.len() implies member_ok(
                    address,
                    #[trigger] front[i],
                ) by {
                    assert(member_ok(address, m[i]));
                }
            }
            if member_ok(address, l) && forall|i: int|
                0 <= i < front.len() ==> member_ok(address, #[trigger] front[i]) {
                assert forall|i: int| 0 <= i < m.len() implies member_ok(
                    address,
                    #[trigger] m[i],
                ) by {
                    if i < n {
                        assert(member_ok(address, front[i]));
                    }
                }
            }
        }
        if let Ok(meta) = meta_of(address, m) {
            let prev = meta_of(address, front)->Ok_0;
            assert forall|i: int| 0 <= i < m.len() && (#[trigger] m[i]).0 == "provider"@ implies
                meta.provider == Some(m[i].1->String_0) by {
                if i < n {
                    assert(front[i].0 == "provider"@);
                }
            }
            assert forall|i: int|
                0 <= i < m.len() && (#[trigger] m[i]).0 == "depends_on"@ implies dependencies(
                address,
                m[i].1->Array_0,
            ) == Ok::<Seq<AddressV>, ConfigErrorV>(meta.depends_on) by {
                if i < n {
                    assert(front[i].0 == "depends_on"@);
                } else {
                    assert forall|j: int| 0 <= j < front.len() implies (#[trigger] front[j]).0
                        != "depends_on"@ by {
                        assert(m[j].0 != l.0);
                    }
                    assert(prev.depends_on =~= Seq::<AddressV>::empty());
                    let ds = dependencies(address, l.1->Array_0)->Ok_0;
                    assert(prev.depends_on + ds =~= ds);
                }
            }
            if forall|i: int| 0 <= i < m.len() ==> (#[trigger] m[i]).0 != "provider"@ {
                assert(l.0 != "provider"@);
                assert forall|j: int| 0 <= j < front.len() implies (#[trigger] front[j]).0
                    != "provider"@ by {
                    assert(m[j].0 != "provider"@);
                }
            }
            if forall|i: int| 0 <= i < m.len() ==> (#[trigger] m[i]).0 != "depends_on"@ {
                assert(l.0 != "depends_on"@);
                assert forall|j: int| 0 <= j < front.len() implies (#[trigger] front[j]).0
                    != "depends_on"@ by {
                    assert(m[j].0 != "depends_on"@);
                }
            }
        }
    }
}

/// The arguments that are not implemented, and those that are no attributes.
pub proof fn law_meta_words(key: Seq<char>)
    ensures
        consequence_of(key) is Some <==> seq![
            "count"@,
            "for_each"@,
            "lifecycle"@,
            "provisioner"@,
            "connection"@,
        ].contains(key),
        is_meta(key) <==> consequence_of(key) is Some || key == "provider"@ || key == "depends_on"@,
{
    let words = seq!["count"@, "for_each"@, "lifecycle"@, "provisioner"@, "connection"@];
    assert(words[0] == "count"@ && words[1] == "for_each"@ && words[2] == "lifecycle"@);
    assert(words[3] == "provisioner"@ && words[4] == "connection"@);
    if words.contains(key) {
        let i = choose|i: int| 0 <= i < words.len() && words[i] == key;
        assert(i == 0 || i == 1 || i == 2 || i == 3 || i == 4);
    }
}

proof fn lemma_no_bracket(t: Seq<char>, n: Seq<char>)
    requires
        address_part(t),
        address_part(n),
    ensures
        !(t + seq!['.'] + n).contains('['),
{
    let s = t + seq!['.'] + n;
    if s.contains('[') {
        let i = choose|i: int| 0 <= i < s.len() && s[i] == '[';
        if i < t.len() {
            assert(t[i] == '[');
            assert(t.contains('['));
        } else {
            assert(n[i - t.len() - 1] == '[');
            assert(n.contains('['));
        }
    }
}

/// An index in quotes may hold anything but a quote, brackets and dots too; it
/// does not matter either.
pub proof fn law_quoted_indices_do_not_matter(
    address: Seq<char>,
    t: Seq<char>,
    n: Seq<char>,
    key: Seq<char>,
)
    requires
        address_part(t),
        address_part(n),
        t != "module"@,
        t != "data"@,
        !key.contains('"'),
    ensures
        dependency(address, t + seq!['.'] + n + seq!['['] + (seq!['"'] + key + seq!['"', ']'])) == Ok::<
            AddressV,
            ConfigErrorV,
        >(types::root_address(ResourceKind::Managed, t, n)),
{
    reveal_strlit("module");
    reveal_strlit("module.");
    reveal_strlit("data");
    reveal_strlit("data.");
    let front = t + seq!['.'] + n;
    let tail = seq!['"'] + key + seq!['"', ']'];
    let e = front + seq!['['] + tail;
    assert("module."@ =~= "module"@ + seq!['.']);
    assert("data."@ =~= "data"@ + seq!['.']);
    let rest = n + seq!['['] + tail;
    assert(e =~= t + seq!['.'] + rest);
    lemma_front_part(t, rest, "module"@);
    lemma_front_part(t, rest, "data"@);
    lemma_two_parts(t, n);
    lemma_no_bracket(t, n);
    text::law_cut_at_the_first(front, '[', tail);
    text::law_cut_at_the_first(front, '[', front);
    let inner = tail.skip(1);
    assert(tail[0] == '"' && tail.last() == ']');
    assert forall|j: int| 0 <= j < key.len() implies inner[j] != '"' by {
        assert(inner[j] == key[j]);
        if key[j] == '"' {
            assert(key.contains('"'));
        }
    }
    assert(inner[key.len() as int] == '"');
    text::lemma_first_at(inner, '"', key.len() as int);
    assert(tail.len() == key.len() + 3);
    assert(closes_index(tail));
}

/// A dependency with one name only, or with three, is refused.
pub proof fn law_dependencies_have_two_parts(
    address: Seq<char>,
    a: Seq<char>,
    b: Seq<char>,
    c: Seq<char>,
)
    requires
        address_part(a),
        address_part(b),
        address_part(c),
        a != "module"@,
        a != "data"@,
    ensures
        dependency(address, a) is Err,
        dependency(address, a + seq!['.'] + (b + seq!['.'] + c)) is Err,
{
    reveal_strlit("module");
    reveal_strlit("module.");
    reveal_strlit("data");
    reveal_strlit("data.");
    assert("module."@ =~= "module"@ + seq!['.']);
    assert("data."@ =~= "data"@ + seq!['.']);
    assert(!text::stands_at(a, "module."@, 0)) by {
        if text::stands_at(a, "module."@, 0) {
            assert(a.subrange(0, 7)[6] == a[6]);
            assert(a.contains('.'));
        }
    }
    assert(!text::stands_at(a, "data."@, 0)) by {
        if text::stands_at(a, "data."@, 0) {
            assert(a.subrange(0, 5)[4] == a[4]);
            assert(a.contains('.'));
        }
    }
    text::law_cut_at_the_first(a, '[', a);
    text::law_cut_at_the_first(a, '.', a);
    assert(text::pieces(a, '.').len() == 1);
    let rest = b + seq!['.'] + c;
    let e = a + seq!['.'] + rest;
    lemma_front_part(a, rest, "module"@);
    lemma_front_part(a, rest, "data"@);
    lemma_no_bracket(b, c);
    assert(!e.contains('[')) by {
        if e.contains('[') {
            let i = choose|i: int| 0 <= i < e.len() && e[i] == '[';
            if i < a.len() {
                assert(a[i] == '[');
                assert(a.contains('['));
            } else {
                assert(rest[i - a.len() - 1] == '[');
                assert(rest.contains('['));
            }
        }
    }
    text::law_cut_at_the_first(e, '[', e);
    text::law_cut_at_the_first(a, '.', rest);
    text::law_cut_at_the_first(b, '.', c);
    text::law_cut_at_the_first(c, '.', c);
    assert(text::pieces(e, '.').len() == 3);
}

} // verus!
