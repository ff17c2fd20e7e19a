//! Workspaces in Terraform JSON: the typed configuration, the
//! meta-arguments of a resource, and the `${resource.attribute}` references.
use vstd::prelude::*;
use vstd::string::*;
use crate::json;
use crate::json::{Json, JsonV};
use crate::ordmap;
use crate::ordmap::StrMap;
use crate::text;
use crate::types;
use crate::types::{
    AddressV, ProviderInstanceError, ProviderInstanceErrorV, ProviderReference, ProviderReferenceV,
    ResourceAddress, ResourceKind,
};

pub mod meta;
pub mod resolve;
pub mod shape;

verus! {

// ── Errors ─────────────────────────────────────────────────────────

#[derive(Debug)]
pub enum ConfigError {
    /// Terraform JSON that cannot be read.
    Malformed(String),
    /// A reference that leads nowhere.
    UnknownReference(String),
    /// JSON that is no workspace, and what is wrong with it.
    Serde(String),
    /// A `provider` argument that cannot be honoured.
    ProviderMeta { address: String, source: ProviderInstanceError },
    /// A meta-argument that is known but not implemented: refused, never
    /// ignored.
    UnimplementedMeta { address: String, key: &'static str, consequence: &'static str },
    /// A meta-argument that does not have its shape.
    MalformedMeta { address: String, key: &'static str, detail: String },
}

/// What a [`ConfigError`] says.
pub enum ConfigErrorV {
    Malformed(Seq<char>),
    UnknownReference(Seq<char>),
    Serde(Seq<char>),
    ProviderMeta { address: Seq<char>, source: ProviderInstanceErrorV },
    UnimplementedMeta { address: Seq<char>, key: Seq<char>, consequence: Seq<char> },
    MalformedMeta { address: Seq<char>, key: Seq<char>, detail: Seq<char> },
}

impl View for ConfigError {
    type V = ConfigErrorV;

    open spec fn view(&self) -> ConfigErrorV {
        match self {
            ConfigError::Malformed(s) => ConfigErrorV::Malformed(s@),
            ConfigError::UnknownReference(s) => ConfigErrorV::UnknownReference(s@),
            ConfigError::Serde(s) => ConfigErrorV::Serde(s@),
            ConfigError::ProviderMeta { address, source } => ConfigErrorV::ProviderMeta {
                address: address@,
                source: source@,
            },
            ConfigError::UnimplementedMeta { address, key, consequence } =>
                ConfigErrorV::UnimplementedMeta {
                address: address@,
                key: key@,
                consequence: consequence@,
            },
            ConfigError::MalformedMeta { address, key, detail } => ConfigErrorV::MalformedMeta {
                address: address@,
                key: key@,
                detail: detail@,
            },
        }
    }
}

/// An error as text.
pub open spec fn error_text(e: ConfigErrorV) -> Seq<char> {
    match e {
        ConfigErrorV::Malformed(s) => "malformed Terraform JSON: "@ + s,
        ConfigErrorV::UnknownReference(s) => "unknown interpolation reference: "@ + text::str_debug(s),
        ConfigErrorV::Serde(s) => "serialization: "@ + s,
        ConfigErrorV::ProviderMeta { address, source } => "resource `"@ + address + "`: "@
            + types::provider_error_text(source),
        ConfigErrorV::UnimplementedMeta { address, key, consequence } => "resource `"@ + address
            + "`: the `"@ + key + "` meta-argument is not implemented by magma. "@ + consequence
            + " Refusing rather than applying a configuration whose declared meaning magma cannot honour."@,
        ConfigErrorV::MalformedMeta { address, key, detail } => "resource `"@ + address
            + "`: malformed `"@ + key + "` meta-argument: "@ + detail,
    }
}

impl ConfigError {
    /// The error as text.
    pub fn message(&self) -> (r: String)
        ensures
            r@ == error_text(self@),
    {
        match self {
            ConfigError::Malformed(s) => text::join2("malformed Terraform JSON: ", s.as_str()),
            ConfigError::UnknownReference(s) => text::join2(
                "unknown interpolation reference: ",
                text::debug_text(s.as_str()).as_str(),
            ),
            ConfigError::Serde(s) => text::join2("serialization: ", s.as_str()),
            ConfigError::ProviderMeta { address, source } => text::join4(
                "resource `",
                address.as_str(),
                "`: ",
                source.message().as_str(),
            ),
            ConfigError::UnimplementedMeta { address, key, consequence } => {
                let mut s = text::join4("resource `", address.as_str(), "`: the `", key);
                s.append("` meta-argument is not implemented by magma. ");
                s.append(consequence);
                s.append(
                    " Refusing rather than applying a configuration whose declared meaning magma cannot honour.",
                );
                s
            },
            ConfigError::MalformedMeta { address, key, detail } => {
                let mut s = text::join4("resource `", address.as_str(), "`: malformed `", key);
                s.append("` meta-argument: ");
                s.append(detail.as_str());
                s
            },
        }
    }
}

// ── The typed workspace ────────────────────────────────────────────

/// A workspace in Terraform JSON.
#[derive(Clone, Debug)]
pub struct Config {
    pub terraform: TerraformBlock,
    pub providers: StrMap<ProviderConfig>,
    /// `type → name → block`
    pub resources: StrMap<StrMap<Json>>,
    /// `type → name → block`
    pub data: StrMap<StrMap<Json>>,
    pub outputs: StrMap<OutputDecl>,
    pub modules: StrMap<Json>,
}

/// The `terraform` block.
#[derive(Clone, Debug)]
pub struct TerraformBlock {
    pub required_providers: StrMap<RequiredProvider>,
    pub backend: StrMap<Json>,
    pub required_version: Option<String>,
}

/// A provider that the workspace asks for.
#[derive(Clone, Debug)]
pub struct RequiredProvider {
    pub source: String,
    pub version: Option<String>,
}

/// The configuration of a provider.
#[derive(Clone, Debug)]
pub struct ProviderConfig {
    pub fields: StrMap<Json>,
}

/// An output.
#[derive(Clone, Debug)]
pub struct OutputDecl {
    pub value: Json,
    pub sensitive: bool,
    pub description: Option<String>,
}

impl Default for TerraformBlock {
    fn default() -> (r: Self)
        ensures
            r@ == terraform_read(None),
    {
        let r = TerraformBlock {
            required_providers: StrMap::new(),
            backend: StrMap::new(),
            required_version: None,
        };
        proof {
            assert(r@.required_providers =~= Seq::empty());
            assert(r@.backend =~= Seq::empty());
        }
        r
    }
}

impl Default for ProviderConfig {
    fn default() -> (r: Self)
        ensures
            r.fields@ == Seq::<(Seq<char>, Json)>::empty(),
    {
        ProviderConfig { fields: StrMap::new() }
    }
}

impl Default for Config {
    fn default() -> (r: Self)
        ensures
            r@ == empty_config(),
    {
        let r = Config {
            terraform: TerraformBlock::default(),
            providers: StrMap::new(),
            resources: StrMap::new(),
            data: StrMap::new(),
            outputs: StrMap::new(),
            modules: StrMap::new(),
        };
        proof {
            assert(r@.providers =~= Seq::empty());
            assert(r@.resources =~= Seq::empty());
            assert(r@.data =~= Seq::empty());
            assert(r@.outputs =~= Seq::empty());
            assert(r@.modules =~= Seq::empty());
        }
        r
    }
}

/// What a [`RequiredProvider`] holds.
pub struct RequiredProviderV {
    pub source: Seq<char>,
    pub version: Option<Seq<char>>,
}

/// What an [`OutputDecl`] holds.
pub struct OutputDeclV {
    pub value: JsonV,
    pub sensitive: bool,
    pub description: Option<Seq<char>>,
}

/// What a [`TerraformBlock`] holds.
pub struct TerraformBlockV {
    pub required_providers: Seq<(Seq<char>, RequiredProviderV)>,
    pub backend: Seq<(Seq<char>, JsonV)>,
    pub required_version: Option<Seq<char>>,
}

/// What a [`Config`] holds.
pub struct ConfigV {
    pub terraform: TerraformBlockV,
    pub providers: Seq<(Seq<char>, Seq<(Seq<char>, JsonV)>)>,
    pub resources: Seq<(Seq<char>, Seq<(Seq<char>, JsonV)>)>,
    pub data: Seq<(Seq<char>, Seq<(Seq<char>, JsonV)>)>,
    pub outputs: Seq<(Seq<char>, OutputDeclV)>,
    pub modules: Seq<(Seq<char>, JsonV)>,
}

impl View for RequiredProvider {
    type V = RequiredProviderV;

    open spec fn view(&self) -> RequiredProviderV {
        RequiredProviderV { source: self.source@, version: types::opt_text(self.version) }
    }
}

impl View for OutputDecl {
    type V = OutputDeclV;

    open spec fn view(&self) -> OutputDeclV {
        OutputDeclV {
            value: self.value@,
            sensitive: self.sensitive,
            description: types::opt_text(self.description),
        }
    }
}

impl View for TerraformBlock {
    type V = TerraformBlockV;

    open spec fn view(&self) -> TerraformBlockV {
        TerraformBlockV {
            required_providers: ordmap::map_vals(self.required_providers@, |p: RequiredProvider| p@),
            backend: json::object_view(self.backend@),
            required_version: types::opt_text(self.required_version),
        }
    }
}

/// Blocks by type and name.
pub open spec fn nested_view(m: Seq<(Seq<char>, StrMap<Json>)>) -> Seq<
    (Seq<char>, Seq<(Seq<char>, JsonV)>),
> {
    ordmap::map_vals(m, |b: StrMap<Json>| json::object_view(b@))
}

impl View for Config {
    type V = ConfigV;

    open spec fn view(&self) -> ConfigV {
        ConfigV {
            terraform: self.terraform@,
            providers: ordmap::map_vals(
                self.providers@,
                |p: ProviderConfig| json::object_view(p.fields@),
            ),
            resources: nested_view(self.resources@),
            data: nested_view(self.data@),
            outputs: ordmap::map_vals(self.outputs@, |o: OutputDecl| o@),
            modules: json::object_view(self.modules@),
        }
    }
}

/// A workspace without blocks.
pub open spec fn empty_config() -> ConfigV {
    ConfigV {
        terraform: terraform_read(None),
        providers: Seq::empty(),
        resources: Seq::empty(),
        data: Seq::empty(),
        outputs: Seq::empty(),
        modules: Seq::empty(),
    }
}

// ── Reading a workspace ────────────────────────────────────────────

/// A record with at most `n` fields: an object, or an array that holds the
/// fields in order and may end early.
pub open spec fn is_record(v: JsonV, n: nat) -> bool {
    match v {
        JsonV::Object(_) => true,
        JsonV::Array(xs) => xs.len() <= n,
        _ => false,
    }
}

/// The field of a record: by its name in an object, by its place in an
/// array.
pub open spec fn field(v: JsonV, place: int, name: Seq<char>) -> Option<JsonV> {
    match v {
        JsonV::Object(_) => json::member(v, name),
        _ => json::element(v, place),
    }
}

/// An object, with the shape that `ok` asks of every member; nothing is an
/// empty one.
pub open spec fn map_ok(v: Option<JsonV>, ok: spec_fn(JsonV) -> bool) -> bool {
    match v {
        None => true,
        Some(JsonV::Object(m)) => forall|i: int| #![trigger m[i]] 0 <= i < m.len() ==> ok(m[i].1),
        Some(_) => false,
    }
}

/// The members of an object, each read by `f`.
pub open spec fn map_read<T>(v: Option<JsonV>, f: spec_fn(JsonV) -> T) -> Seq<(Seq<char>, T)> {
    match v {
        Some(JsonV::Object(m)) => ordmap::map_vals(m, f),
        _ => Seq::empty(),
    }
}

/// A string or nothing.
pub open spec fn text_ok(v: Option<JsonV>) -> bool {
    match v {
        None => true,
        Some(x) => x is Null || x is String,
    }
}

pub open spec fn text_read(v: Option<JsonV>) -> Option<Seq<char>> {
    match v {
        Some(JsonV::String(s)) => Some(s),
        _ => None,
    }
}

pub open spec fn any_ok() -> spec_fn(JsonV) -> bool {
    |v: JsonV| true
}

pub open spec fn as_is() -> spec_fn(JsonV) -> JsonV {
    |v: JsonV| v
}

pub open spec fn object_ok() -> spec_fn(JsonV) -> bool {
    |v: JsonV| v is Object
}

pub open spec fn object_read() -> spec_fn(JsonV) -> Seq<(Seq<char>, JsonV)> {
    |v: JsonV| v->Object_0
}

pub open spec fn required_ok() -> spec_fn(JsonV) -> bool {
    |v: JsonV|
        is_record(v, 2) && field(v, 0, "source"@) is Some && field(v, 0, "source"@)->Some_0 is String
            && text_ok(field(v, 1, "version"@))
}

pub open spec fn required_read() -> spec_fn(JsonV) -> RequiredProviderV {
    |v: JsonV|
        RequiredProviderV {
            source: field(v, 0, "source"@)->Some_0->String_0,
            version: text_read(field(v, 1, "version"@)),
        }
}

pub open spec fn output_ok() -> spec_fn(JsonV) -> bool {
    |v: JsonV|
        is_record(v, 3) && field(v, 0, "value"@) is Some && (field(v, 1, "sensitive"@) is None
            || field(v, 1, "sensitive"@)->Some_0 is Bool) && text_ok(field(v, 2, "description"@))
}

pub open spec fn output_read() -> spec_fn(JsonV) -> OutputDeclV {
    |v: JsonV|
        OutputDeclV {
            value: field(v, 0, "value"@)->Some_0,
            sensitive: match field(v, 1, "sensitive"@) {
                Some(JsonV::Bool(b)) => b,
                _ => false,
            },
            description: text_read(field(v, 2, "description"@)),
        }
}

pub open spec fn terraform_ok(v: Option<JsonV>) -> bool {
    match v {
        None => true,
        Some(t) => is_record(t, 3) && map_ok(field(t, 0, "required_providers"@), required_ok())
            && map_ok(field(t, 1, "backend"@), any_ok()) && text_ok(field(t, 2, "required_version"@)),
    }
}

pub open spec fn terraform_read(v: Option<JsonV>) -> TerraformBlockV {
    match v {
        None => TerraformBlockV {
            required_providers: Seq::empty(),
            backend: Seq::empty(),
            required_version: None,
        },
        Some(t) => TerraformBlockV {
            required_providers: map_read(field(t, 0, "required_providers"@), required_read()),
            backend: map_read(field(t, 1, "backend"@), as_is()),
            required_version: text_read(field(t, 2, "required_version"@)),
        },
    }
}

/// Every block of a workspace has its shape.
pub open spec fn well_shaped(v: JsonV) -> bool {
    &&& is_record(v, 6)
    &&& terraform_ok(field(v, 0, "terraform"@))
    &&& map_ok(field(v, 1, "provider"@), object_ok())
    &&& map_ok(field(v, 2, "resource"@), object_ok())
    &&& map_ok(field(v, 3, "data"@), object_ok())
    &&& map_ok(field(v, 4, "output"@), output_ok())
    &&& map_ok(field(v, 5, "module"@), any_ok())
}

/// The workspace that a JSON value stands for.
pub open spec fn config_of(v: JsonV) -> ConfigV {
    ConfigV {
        terraform: terraform_read(field(v, 0, "terraform"@)),
        providers: map_read(field(v, 1, "provider"@), object_read()),
        resources: map_read(field(v, 2, "resource"@), object_read()),
        data: map_read(field(v, 3, "data"@), object_read()),
        outputs: map_read(field(v, 4, "output"@), output_read()),
        modules: map_read(field(v, 5, "module"@), as_is()),
    }
}

fn record_fits(v: &Json, n: usize) -> (r: bool)
    ensures
        r == is_record(v@, n as nat),
{
    match v {
        Json::Object(_) => true,
        Json::Array(xs) => {
            proof {
                json::lemma_array_view(*xs);
            }
            xs.len() <= n
        },
        _ => false,
    }
}

fn get_field<'a>(v: &'a Json, place: usize, name: &str) -> (r: Option<&'a Json>)
    ensures
        json::opt_view(r) == field(v@, place as int, name@),
{
    match v {
        Json::Object(_) => v.get(name),
        _ => v.at(place),
    }
}

fn read_text(v: Option<&Json>) -> (r: Result<Option<String>, ()>)
    ensures
        match r {
            Ok(t) => text_ok(json::opt_view(v)) && types::opt_text(t) == text_read(json::opt_view(v)),
            Err(_) => !text_ok(json::opt_view(v)),
        },
{
    match v {
        None => Ok(None),
        Some(Json::Null) => Ok(None),
        Some(Json::String(s)) => Ok(Some(s.clone())),
        Some(_) => Err(()),
    }
}

/// The members of a block, as they are.
fn read_plain(v: Option<&Json>) -> (r: Option<StrMap<Json>>)
    ensures
        match r {
            Some(m) => map_ok(json::opt_view(v), any_ok()) && json::object_view(m@) == map_read(
                json::opt_view(v),
                as_is(),
            ),
            None => !map_ok(json::opt_view(v), any_ok()),
        },
{
    match v {
        None => {
            let m: StrMap<Json> = StrMap::new();
            proof {
                assert(json::object_view(m@) =~= Seq::empty());
            }
            Some(m)
        },
        Some(Json::Object(m)) => {
            proof {
                json::lemma_object_view(*m);
                assert(ordmap::map_vals(json::object_view(m@), as_is()) =~= json::object_view(m@));
            }
            Some(json::clone_object(m))
        },
        Some(_) => None,
    }
}

/// Blocks by type and name.
#[verifier::loop_isolation(false)]
fn read_nested(v: Option<&Json>) -> (r: Option<StrMap<StrMap<Json>>>)
    ensures
        match r {
            Some(m) => map_ok(json::opt_view(v), object_ok()) && nested_view(m@) == map_read(
                json::opt_view(v),
                object_read(),
            ),
            None => !map_ok(json::opt_view(v), object_ok()),
        },
{
    let m = match v {
        None => {
            let o: StrMap<StrMap<Json>> = StrMap::new();
            proof {
                assert(nested_view(o@) =~= Seq::empty());
            }
            return Some(o);
        },
        Some(Json::Object(m)) => m,
        Some(_) => {
            return None;
        },
    };
    let mut out: Vec<(String, StrMap<Json>)> = Vec::new();
    let mut i: usize = 0;
    let ghost all = json::object_view(m@);
    proof {
        json::lemma_object_view(*m);
    }
    while i < m.entries.len()
        invariant
            i <= m.entries@.len(),
            out@.len() == i,
            forall|j: int|
                #![trigger all[j]]
                0 <= j < i ==> all[j].1 is Object && out@[j].0@ == all[j].0 && json::object_view(
                    out@[j].1@,
                ) == all[j].1->Object_0,
        decreases m.entries.len() - i,
    {
        proof {
            assert(all[i as int] == (m.entries@[i as int].0@, m.entries@[i as int].1@));
        }
        match &m.entries[i].1 {
            Json::Object(b) => {
                proof {
                    json::lemma_object_view(*b);
                }
                let c = json::clone_object(b);
                out.push((m.entries[i].0.clone(), c));
            },
            _ => {
                proof {
                    let o = json::opt_view(v)->Some_0->Object_0;
                    assert(o == all);
                    assert(!object_ok()(o[i as int].1));
                }
                return None;
            },
        }
        i += 1;
    }
    let o = StrMap { entries: out };
    proof {
        assert(nested_view(o@) =~= ordmap::map_vals(all, object_read())) by {
            assert forall|j: int| 0 <= j < all.len() implies nested_view(o@)[j] == ordmap::map_vals(
                all,
                object_read(),
            )[j] by {
                assert(all[j].1 is Object);
            }
        }
    }
    Some(o)
}

fn read_required(v: &Json) -> (r: Option<RequiredProvider>)
    ensures
        match r {
            Some(p) => required_ok()(v@) && p@ == required_read()(v@),
            None => !required_ok()(v@),
        },
{
    if !record_fits(v, 2) {
        return None;
    }
    let source = match get_field(v, 0, "source") {
        Some(Json::String(s)) => s.clone(),
        _ => {
            return None;
        },
    };
    match read_text(get_field(v, 1, "version")) {
        Ok(version) => Some(RequiredProvider { source, version }),
        Err(_) => None,
    }
}

fn read_output(v: &Json) -> (r: Option<OutputDecl>)
    ensures
        match r {
            Some(o) => output_ok()(v@) && o@ == output_read()(v@),
            None => !output_ok()(v@),
        },
{
    if !record_fits(v, 3) {
        return None;
    }
    let value: Json = match get_field(v, 0, "value") {
        Some(x) => x.clone(),
        None => {
            return None;
        },
    };
    let sensitive = match get_field(v, 1, "sensitive") {
        None => false,
        Some(Json::Bool(b)) => *b,
        Some(_) => {
            return None;
        },
    };
    match read_text(get_field(v, 2, "description")) {
        Ok(description) => Some(OutputDecl { value, sensitive, description }),
        Err(_) => None,
    }
}

#[verifier::loop_isolation(false)]
fn read_required_providers(v: Option<&Json>) -> (r: Option<StrMap<RequiredProvider>>)
    ensures
        match r {
            Some(m) => map_ok(json::opt_view(v), required_ok()) && ordmap::map_vals(
                m@,
                |p: RequiredProvider| p@,
            ) == map_read(json::opt_view(v), required_read()),
            None => !map_ok(json::opt_view(v), required_ok()),
        },
{
    let m = match v {
        None => {
            let o: StrMap<RequiredProvider> = StrMap::new();
            proof {
                assert(ordmap::map_vals(o@, |p: RequiredProvider| p@) =~= Seq::empty());
            }
            return Some(o);
        },
        Some(Json::Object(m)) => m,
        Some(_) => {
            return None;
        },
    };
    let mut out: Vec<(String, RequiredProvider)> = Vec::new();
    let mut i: usize = 0;
    let ghost all = json::object_view(m@);
    proof {
        json::lemma_object_view(*m);
    }
    while i < m.entries.len()
        invariant
            i <= m.entries@.len(),
            out@.len() == i,
            forall|j: int|
                #![trigger all[j]]
                0 <= j < i ==> required_ok()(all[j].1) && out@[j].0@ == all[j].0 && out@[j].1@
                    == required_read()(all[j].1),
        decreases m.entries.len() - i,
    {
        proof {
            assert(all[i as int] == (m.entries@[i as int].0@, m.entries@[i as int].1@));
        }
        match read_required(&m.entries[i].1) {
            Some(p) => {
                out.push((m.entries[i].0.clone(), p));
            },
            None => {
                proof {
                    let o = json::opt_view(v)->Some_0->Object_0;
                    assert(o == all);
                    assert(!required_ok()(o[i as int].1));
                }
                return None;
            },
        }
        i += 1;
    }
    let o = StrMap { entries: out };
    proof {
        assert forall|j: int| 0 <= j < all.len() implies (#[trigger] o@[j]).0 == all[j].0 && o@[j].1@
            == required_read()(all[j].1) by {
            assert(required_ok()(all[j].1));
        }
        assert(ordmap::map_vals(o@, |p: RequiredProvider| p@) =~= ordmap::map_vals(
            all,
            required_read(),
        ));
    }
    Some(o)
}

#[verifier::loop_isolation(false)]
fn read_outputs(v: Option<&Json>) -> (r: Option<StrMap<OutputDecl>>)
    ensures
        match r {
            Some(m) => map_ok(json::opt_view(v), output_ok()) && ordmap::map_vals(
                m@,
                |o: OutputDecl| o@,
            ) == map_read(json::opt_view(v), output_read()),
            None => !map_ok(json::opt_view(v), output_ok()),
        },
{
    let m = match v {
        None => {
            let o: StrMap<OutputDecl> = StrMap::new();
            proof {
                assert(ordmap::map_vals(o@, |p: OutputDecl| p@) =~= Seq::empty());
            }
            return Some(o);
        },
        Some(Json::Object(m)) => m,
        Some(_) => {
            return None;
        },
    };
    let mut out: Vec<(String, OutputDecl)> = Vec::new();
    let mut i: usize = 0;
    let ghost all = json::object_view(m@);
    proof {
        json::lemma_object_view(*m);
    }
    while i < m.entries.len()
        invariant
            i <= m.entries@.len(),
            out@.len() == i,
            forall|j: int|
                #![trigger all[j]]
                0 <= j < i ==> output_ok()(all[j].1) && out@[j].0@ == all[j].0 && out@[j].1@
                    == output_read()(all[j].1),
        decreases m.entries.len() - i,
    {
        proof {
            assert(all[i as int] == (m.entries@[i as int].0@, m.entries@[i as int].1@));
        }
        match read_output(&m.entries[i].1) {
            Some(p) => {
                out.push((m.entries[i].0.clone(), p));
            },
            None => {
                proof {
                    let o = json::opt_view(v)->Some_0->Object_0;
                    assert(o == all);
                    assert(!output_ok()(o[i as int].1));
                }
                return None;
            },
        }
        i += 1;
    }
    let o = StrMap { entries: out };
    proof {
        assert forall|j: int| 0 <= j < all.len() implies (#[trigger] o@[j]).0 == all[j].0 && o@[j].1@
            == output_read()(all[j].1) by {
            assert(output_ok()(all[j].1));
        }
        assert(ordmap::map_vals(o@, |p: OutputDecl| p@) =~= ordmap::map_vals(all, output_read()));
    }
    Some(o)
}

#[verifier::loop_isolation(false)]
fn wrap_providers(m: StrMap<StrMap<Json>>) -> (r: StrMap<ProviderConfig>)
    ensures
        ordmap::map_vals(r@, |p: ProviderConfig| json::object_view(p.fields@)) == nested_view(m@),
{
    let mut out: Vec<(String, ProviderConfig)> = Vec::new();
    let mut i: usize = 0;
    while i < m.entries.len()
        invariant
            i <= m.entries@.len(),
            out@.len() == i,
            forall|j: int|
                0 <= j < i ==> (#[trigger] out@[j]).0@ == m.entries@[j].0@ && json::object_view(
                    out@[j].1.fields@,
                ) == json::object_view(m.entries@[j].1@),
        decreases m.entries.len() - i,
    {
        let fields = json::clone_object(&m.entries[i].1);
        out.push((m.entries[i].0.clone(), ProviderConfig { fields }));
        i += 1;
    }
    let o = StrMap { entries: out };
    proof {
        assert(ordmap::map_vals(o@, |p: ProviderConfig| json::object_view(p.fields@))
            =~= nested_view(m@));
    }
    o
}

fn read_terraform(v: Option<&Json>) -> (r: Option<TerraformBlock>)
    ensures
        match r {
            Some(t) => terraform_ok(json::opt_view(v)) && t@ == terraform_read(json::opt_view(v)),
            None => !terraform_ok(json::opt_view(v)),
        },
{
    let t = match v {
        None => {
            let required_providers: StrMap<RequiredProvider> = StrMap::new();
            let backend: StrMap<Json> = StrMap::new();
            proof {
                assert(ordmap::map_vals(required_providers@, |p: RequiredProvider| p@)
                    =~= Seq::empty());
                assert(json::object_view(backend@) =~= Seq::empty());
            }
            return Some(TerraformBlock { required_providers, backend, required_version: None });
        },
        Some(t) => t,
    };
    if !record_fits(t, 3) {
        return None;
    }
    let required_providers = match read_required_providers(get_field(t, 0, "required_providers")) {
        Some(m) => m,
        None => {
            return None;
        },
    };
    let backend = match read_plain(get_field(t, 1, "backend")) {
        Some(m) => m,
        None => {
            return None;
        },
    };
    match read_text(get_field(t, 2, "required_version")) {
        Ok(required_version) => Some(
            TerraformBlock { required_providers, backend, required_version },
        ),
        Err(_) => None,
    }
}

/// The workspace that a JSON value stands for; nothing where it is none.
fn read_workspace(v: &Json) -> (r: Option<Config>)
    ensures
        match r {
            Some(c) => well_shaped(v@) && c@ == config_of(v@),
            None => !well_shaped(v@),
        },
{
    if !record_fits(v, 6) {
        return None;
    }
    match (
        read_terraform(get_field(v, 0, "terraform")),
        read_nested(get_field(v, 1, "provider")),
        read_nested(get_field(v, 2, "resource")),
        read_nested(get_field(v, 3, "data")),
        read_outputs(get_field(v, 4, "output")),
        read_plain(get_field(v, 5, "module")),
    ) {
        (
            Some(terraform),
            Some(providers),
            Some(resources),
            Some(data),
            Some(outputs),
            Some(modules),
        ) => Some(
            Config {
                terraform,
                providers: wrap_providers(providers),
                resources,
                data,
                outputs,
                modules,
            },
        ),
        _ => None,
    }
}

impl Config {
    /// Read a workspace. Blocks that are not there are empty; blocks that
    /// the workspace does not know are ignored. The error says what is wrong
    /// with the first member that does not have its shape; see
    /// [`shape::config_fault`].
    pub fn from_json(v: Json) -> (r: Result<Self, ConfigError>)
        ensures
            match shape::config_fault(v@) {
                None => r is Ok && r->Ok_0@ == config_of(v@),
                Some(e) => r is Err && r->Err_0@ == ConfigErrorV::Serde(e),
            },
    {
        if let Some(e) = shape::find_config_fault(&v) {
            return Err(ConfigError::Serde(e));
        }
        proof {
            shape::lemma_no_fault_is_shaped(v@);
        }
        match read_workspace(&v) {
            Some(c) => Ok(c),
            // Not reached: JSON without fault is a workspace.
            None => Err(ConfigError::Serde(String::new())),
        }
    }

    /// The addresses of all resources, managed ones first, each kind in the
    /// order of types and names.
    pub fn resource_addresses(&self) -> (r: Vec<ResourceAddress>)
        ensures
            types::addresses(r@) == addresses_of(self@.resources, ResourceKind::Managed)
                + addresses_of(self@.data, ResourceKind::Data),
    {
        let mut out: Vec<ResourceAddress> = Vec::new();
        proof {
            assert(types::addresses(out@) =~= Seq::empty());
        }
        push_addresses(&mut out, &self.resources, ResourceKind::Managed);
        push_addresses(&mut out, &self.data, ResourceKind::Data);
        proof {
            let a = addresses_of(self@.resources, ResourceKind::Managed);
            let b = addresses_of(self@.data, ResourceKind::Data);
            assert(Seq::<AddressV>::empty() + a + b =~= a + b);
        }
        out
    }

    /// The providers that the workspace asks for, in the order of their
    /// names.
    pub fn provider_references(&self) -> (r: Vec<ProviderReference>)
        ensures
            r@.len() == self@.terraform.required_providers.len(),
            forall|i: int|
                #![trigger r@[i]]
                0 <= i < r@.len() ==> r@[i]@ == (ProviderReferenceV {
                    source: self@.terraform.required_providers[i].1.source,
                    name: self@.terraform.required_providers[i].0,
                    alias: None,
                }),
    {
        let m = &self.terraform.required_providers;
        let mut out: Vec<ProviderReference> = Vec::new();
        let mut i: usize = 0;
        while i < m.entries.len()
            invariant
                i <= m.entries@.len(),
                *m == self.terraform.required_providers,
                out@.len() == i,
                forall|j: int|
                    #![trigger out@[j]]
                    0 <= j < i ==> out@[j]@ == (ProviderReferenceV {
                        source: self@.terraform.required_providers[j].1.source,
                        name: self@.terraform.required_providers[j].0,
                        alias: None,
                    }),
            decreases m.entries.len() - i,
        {
            out.push(
                ProviderReference {
                    source: m.entries[i].1.source.clone(),
                    name: m.entries[i].0.clone(),
                    alias: None,
                },
            );
            i += 1;
        }
        out
    }
}

/// The addresses of the blocks of one type.
pub open spec fn addresses_of_type(
    type_id: Seq<char>,
    by_name: Seq<(Seq<char>, JsonV)>,
    kind: ResourceKind,
) -> Seq<AddressV> {
    Seq::new(by_name.len(), |i: int| types::root_address(kind, type_id, by_name[i].0))
}

/// The addresses of blocks by type and name.
pub open spec fn addresses_of(
    blocks: Seq<(Seq<char>, Seq<(Seq<char>, JsonV)>)>,
    kind: ResourceKind,
) -> Seq<AddressV>
    decreases blocks.len(),
{
    if blocks.len() == 0 {
        Seq::empty()
    } else {
        addresses_of(blocks.drop_last(), kind) + addresses_of_type(
            blocks.last().0,
            blocks.last().1,
            kind,
        )
    }
}

#[verifier::loop_isolation(false)]
fn push_addresses(
    out: &mut Vec<ResourceAddress>,
    blocks: &StrMap<StrMap<Json>>,
    kind: ResourceKind,
)
    ensures
        types::addresses(final(out)@) == types::addresses(old(out)@) + addresses_of(
            nested_view(blocks@),
            kind,
        ),
{
    let ghost all = nested_view(blocks@);
    let ghost start = types::addresses(out@);
    let mut i: usize = 0;
    proof {
        assert(all.take(0) =~= Seq::empty());
        assert(start + Seq::<AddressV>::empty() =~= start);
    }
    while i < blocks.entries.len()
        invariant
            i <= blocks.entries@.len(),
            types::addresses(out@) == start + addresses_of(all.take(i as int), kind),
        decreases blocks.entries.len() - i,
    {
        let type_id = &blocks.entries[i].0;
        let by_name = &blocks.entries[i].1;
        let ghost names = json::object_view(by_name@);
        let ghost mid = types::addresses(out@);
        let ghost new = addresses_of_type(type_id@, names, kind);
        proof {
            assert(all.take(i + 1).drop_last() =~= all.take(i as int));
            assert(all.take(i + 1).last() == (type_id@, names));
            assert(mid + new.take(0) =~= mid);
        }
        let mut j: usize = 0;
        while j < by_name.entries.len()
            invariant
                j <= by_name.entries@.len(),
                types::addresses(out@) == mid + new.take(j as int),
            decreases by_name.entries.len() - j,
        {
            let ghost before = out@;
            let a = ResourceAddress::root(kind, type_id.clone(), by_name.entries[j].0.clone());
            out.push(a);
            proof {
                assert(types::addresses(out@) =~= types::addresses(before).push(a@));
                assert(new[j as int] == a@);
                assert(mid + new.take(j + 1) =~= (mid + new.take(j as int)).push(a@));
            }
            j += 1;
        }
        proof {
            assert(new.take(new.len() as int) =~= new);
            assert(start + addresses_of(all.take(i as int), kind) + new =~= start + (addresses_of(
                all.take(i as int),
                kind,
            ) + new));
        }
        i += 1;
    }
    proof {
        assert(all.take(all.len() as int) =~= all);
    }
}

/// A document that is an object is read by the names of its members, one that
/// is an array by their places.
pub proof fn law_fields_by_name_or_place(v: JsonV, place: int, name: Seq<char>)
    ensures
        v is Object ==> field(v, place, name) == json::member(v, name),
        v is Array ==> field(v, place, name) == json::element(v, place),
{
}

proof fn lemma_map_read<T>(v: Option<JsonV>, f: spec_fn(JsonV) -> T, k: Seq<char>)
    ensures
        ordmap::lookup(map_read(v, f), k) == match v {
            Some(x) => match json::member(x, k) {
                Some(y) => Some(f(y)),
                None => None,
            },
            None => None,
        },
{
    match v {
        Some(JsonV::Object(m)) => {
            ordmap::lemma_map_vals_lookup(m, f, k);
        },
        _ => {
            ordmap::lemma_lookup_none(map_read(v, f), k);
        },
    }
}

/// Each block of a configuration holds what the document has under its name:
/// a resource under its type and name, an output and a module under its name.
pub proof fn law_blocks_hold_their_members(v: JsonV, k: Seq<char>)
    requires
        v is Object,
        well_shaped(v),
    ensures
        ordmap::lookup(config_of(v).resources, k) == match json::member(v, "resource"@) {
            Some(b) => match json::member(b, k) {
                Some(x) => Some(x->Object_0),
                None => None,
            },
            None => None,
        },
        ordmap::lookup(config_of(v).data, k) == match json::member(v, "data"@) {
            Some(b) => match json::member(b, k) {
                Some(x) => Some(x->Object_0),
                None => None,
            },
            None => None,
        },
        ordmap::lookup(config_of(v).providers, k) == match json::member(v, "provider"@) {
            Some(b) => match json::member(b, k) {
                Some(x) => Some(x->Object_0),
                None => None,
            },
            None => None,
        },
        ordmap::lookup(config_of(v).modules, k) == match json::member(v, "module"@) {
            Some(b) => json::member(b, k),
            None => None,
        },
        ordmap::lookup(config_of(v).outputs, k) is Some <==> json::member(v, "output"@) is Some
            && json::member(json::member(v, "output"@)->Some_0, k) is Some,
{
    lemma_map_read(field(v, 1, "provider"@), object_read(), k);
    lemma_map_read(field(v, 2, "resource"@), object_read(), k);
    lemma_map_read(field(v, 3, "data"@), object_read(), k);
    lemma_map_read(field(v, 4, "output"@), output_read(), k);
    lemma_map_read(field(v, 5, "module"@), as_is(), k);
}

/// An output has the value that it is declared with, is sensitive only where
/// it says so, and is described only where it has a text.
pub proof fn law_outputs_say_what_they_are(v: JsonV)
    requires
        v is Object,
        output_ok()(v),
    ensures
        json::member(v, "value"@) == Some(output_read()(v).value),
        output_read()(v).sensitive <==> json::member(v, "sensitive"@) == Some(JsonV::Bool(true)),
        output_read()(v).description == match json::member(v, "description"@) {
            Some(JsonV::String(s)) => Some(s),
            _ => None,
        },
{
}

/// The addresses of two lists of blocks are those of the first and then those
/// of the second; those of one block are its names under its type.
pub proof fn law_addresses_in_parts(
    a: Seq<(Seq<char>, Seq<(Seq<char>, JsonV)>)>,
    b: Seq<(Seq<char>, Seq<(Seq<char>, JsonV)>)>,
    kind: ResourceKind,
)
    ensures
        addresses_of(a + b, kind) == addresses_of(a, kind) + addresses_of(b, kind),
        b.len() == 1 ==> {
            &&& addresses_of(b, kind).len() == b[0].1.len()
            &&& forall|i: int|
                0 <= i < b[0].1.len() ==> #[trigger] addresses_of(b, kind)[i]
                    == types::root_address(kind, b[0].0, b[0].1[i].0)
        },
    decreases b.len(),
{
    if b.len() == 0 {
        assert(a + b =~= a);
        assert(addresses_of(a, kind) + addresses_of(b, kind) =~= addresses_of(a, kind));
    } else {
        let f = b.drop_last();
        law_addresses_in_parts(a, f, kind);
        assert((a + b).drop_last() =~= a + f);
        assert((a + b).last() == b.last());
        assert(addresses_of(a + b, kind) =~= addresses_of(a, kind) + addresses_of(b, kind));
        if b.len() == 1 {
            assert(f =~= Seq::<(Seq<char>, Seq<(Seq<char>, JsonV)>)>::empty());
            assert(addresses_of(f, kind) =~= Seq::<AddressV>::empty());
            assert(addresses_of(b, kind) =~= addresses_of_type(b[0].0, b[0].1, kind));
        }
    }
}

/// An output that is an object must have a value; a flag on it must be a
/// boolean and a description a text, or null.
pub proof fn law_output_shapes(v: JsonV)
    requires
        v is Object,
    ensures
        output_ok()(v) <==> {
            &&& json::member(v, "value"@) is Some
            &&& json::member(v, "sensitive"@) is None || json::member(
                v,
                "sensitive"@,
            )->Some_0 is Bool
            &&& json::member(v, "description"@) is None || json::member(
                v,
                "description"@,
            )->Some_0 is String || json::member(v, "description"@)->Some_0 is Null
        },
{
}

/// A required provider that is an object must have a source that is a text,
/// and may have a version that is one.
pub proof fn law_required_shapes(v: JsonV)
    requires
        v is Object,
    ensures
        required_ok()(v) <==> {
            &&& json::member(v, "source"@) is Some
            &&& json::member(v, "source"@)->Some_0 is String
            &&& json::member(v, "version"@) is None || json::member(v, "version"@)->Some_0 is String
                || json::member(v, "version"@)->Some_0 is Null
        },
        required_ok()(v) ==> json::member(v, "source"@) == Some(
            JsonV::String(required_read()(v).source),
        ) && required_read()(v).version == match json::member(v, "version"@) {
            Some(JsonV::String(s)) => Some(s),
            _ => None,
        },
{
}

/// A block is not there, or it is an object.
pub open spec fn block_of(v: JsonV, name: Seq<char>) -> bool {
    json::member(v, name) is None || json::member(v, name)->Some_0 is Object
}

/// A document that is an object is a configuration exactly where each of its
/// blocks is an object or not there, resources, data sources and providers are
/// objects, and the outputs and the settings are well shaped.
pub proof fn law_config_shapes(v: JsonV)
    requires
        v is Object,
    ensures
        well_shaped(v) <==> {
            &&& block_of(v, "provider"@)
            &&& block_of(v, "resource"@)
            &&& block_of(v, "data"@)
            &&& block_of(v, "output"@)
            &&& block_of(v, "module"@)
            &&& terraform_ok(json::member(v, "terraform"@))
            &&& json::member(v, "provider"@) matches Some(JsonV::Object(m)) ==> forall|i: int|
                0 <= i < m.len() ==> (#[trigger] m[i]).1 is Object
            &&& json::member(v, "resource"@) matches Some(JsonV::Object(m)) ==> forall|i: int|
                0 <= i < m.len() ==> (#[trigger] m[i]).1 is Object
            &&& json::member(v, "data"@) matches Some(JsonV::Object(m)) ==> forall|i: int|
                0 <= i < m.len() ==> (#[trigger] m[i]).1 is Object
            &&& json::member(v, "output"@) matches Some(JsonV::Object(m)) ==> forall|i: int|
                0 <= i < m.len() ==> output_ok()((#[trigger] m[i]).1)
        },
{
}

/// The settings are those of the members of their names: the providers that
/// are required, the backend, and the version.
pub proof fn law_settings_hold_their_members(t: JsonV, k: Seq<char>)
    requires
        t is Object,
        terraform_ok(Some(t)),
    ensures
        ordmap::lookup(terraform_read(Some(t)).required_providers, k) == match json::member(
            t,
            "required_providers"@,
        ) {
            Some(b) => match json::member(b, k) {
                Some(x) => Some(required_read()(x)),
                None => None,
            },
            None => None,
        },
        ordmap::lookup(terraform_read(Some(t)).backend, k) == match json::member(t, "backend"@) {
            Some(b) => json::member(b, k),
            None => None,
        },
        terraform_read(Some(t)).required_version == match json::member(t, "required_version"@) {
            Some(JsonV::String(s)) => Some(s),
            _ => None,
        },
{
    lemma_map_read(field(t, 0, "required_providers"@), required_read(), k);
    lemma_map_read(field(t, 1, "backend"@), as_is(), k);
}

} // verus!
