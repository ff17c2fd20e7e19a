//! Resource addresses, providers and state: the vocabulary that the planner
//! and the executor share.
use vstd::prelude::*;
use vstd::string::*;
use crate::json;
use crate::json::Json;
use crate::text;

verus! {

/// Whether a resource is managed or only read.
#[derive(Clone, Copy, Debug, PartialEq, Eq, Structural)]
pub enum ResourceKind {
    Managed,
    Data,
}

/// A resource type, such as `aws_vpc`.
#[derive(Debug)]
pub struct ResourceTypeId(pub String);

/// The modules that a resource is nested in, outermost first.
#[derive(Debug)]
pub struct ModulePath {
    pub steps: Vec<String>,
}

impl ModulePath {
    /// Not in a module.
    pub fn root() -> (r: Self)
        ensures
            text::texts(r.steps@) == Seq::<Seq<char>>::empty(),
    {
        let r = ModulePath { steps: Vec::new() };
        proof {
            assert(text::texts(r.steps@) =~= Seq::empty());
        }
        r
    }
}

/// Where a resource stands.
#[derive(Debug)]
pub struct ResourceAddress {
    pub module: ModulePath,
    pub kind: ResourceKind,
    pub type_id: ResourceTypeId,
    pub name: String,
    /// The key of one instance among several, as it is printed.
    pub key: Option<String>,
}

/// What a [`ResourceAddress`] holds.
pub struct AddressV {
    pub module: Seq<Seq<char>>,
    pub kind: ResourceKind,
    pub type_id: Seq<char>,
    pub name: Seq<char>,
    pub key: Option<Seq<char>>,
}

pub open spec fn opt_text(o: Option<String>) -> Option<Seq<char>> {
    match o {
        Some(s) => Some(s@),
        None => None,
    }
}

impl View for ResourceAddress {
    type V = AddressV;

    open spec fn view(&self) -> AddressV {
        AddressV {
            module: text::texts(self.module.steps@),
            kind: self.kind,
            type_id: self.type_id.0@,
            name: self.name@,
            key: opt_text(self.key),
        }
    }
}

impl Clone for ResourceAddress {
    fn clone(&self) -> (r: Self)
        ensures
            r@ == self@,
    {
        let mut steps: Vec<String> = Vec::new();
        let mut i: usize = 0;
        while i < self.module.steps.len()
            invariant
                i <= self.module.steps@.len(),
                steps@.len() == i,
                forall|j: int| 0 <= j < i ==> (#[trigger] steps@[j])@ == self.module.steps@[j]@,
            decreases self.module.steps.len() - i,
        {
            steps.push(self.module.steps[i].clone());
            i += 1;
        }
        proof {
            assert(text::texts(steps@) =~= text::texts(self.module.steps@));
        }
        ResourceAddress {
            module: ModulePath { steps },
            kind: self.kind,
            type_id: ResourceTypeId(self.type_id.0.clone()),
            name: self.name.clone(),
            key: match &self.key {
                Some(k) => Some(k.clone()),
                None => None,
            },
        }
    }
}

/// The address of a resource outside any module, without an instance key.
pub open spec fn root_address(kind: ResourceKind, type_id: Seq<char>, name: Seq<char>) -> AddressV {
    AddressV { module: Seq::empty(), kind, type_id, name, key: None }
}

/// Addresses, by what they hold.
pub open spec fn addresses(v: Seq<ResourceAddress>) -> Seq<AddressV> {
    Seq::new(v.len(), |i: int| v[i]@)
}

/// `module.<step>.` for each step.
pub open spec fn module_text(steps: Seq<Seq<char>>) -> Seq<char>
    decreases steps.len(),
{
    if steps.len() == 0 {
        Seq::empty()
    } else {
        module_text(steps.drop_last()) + ("module."@ + steps.last() + "."@)
    }
}

/// `<type>.<name>`, after the modules and after `data.` for a data source,
/// and with the key of an instance in brackets.
pub open spec fn address_text(a: AddressV) -> Seq<char> {
    module_text(a.module) + (match a.kind {
        ResourceKind::Managed => Seq::empty(),
        ResourceKind::Data => "data."@,
    }) + a.type_id + "."@ + a.name + (match a.key {
        Some(k) => "["@ + k + "]"@,
        None => Seq::empty(),
    })
}

impl ResourceAddress {
    /// The address of a resource outside any module.
    pub fn root(kind: ResourceKind, type_id: String, name: String) -> (r: Self)
        ensures
            r@ == root_address(kind, type_id@, name@),
    {
        ResourceAddress {
            module: ModulePath::root(),
            kind,
            type_id: ResourceTypeId(type_id),
            name,
            key: None,
        }
    }

    /// The address as text; see [`address_text`].
    pub fn text(&self) -> (r: String)
        ensures
            r@ == address_text(self@),
    {
        let ghost steps = text::texts(self.module.steps@);
        let mut out = String::new();
        let mut i: usize = 0;
        proof {
            assert(steps.take(0) =~= Seq::empty());
        }
        while i < self.module.steps.len()
            invariant
                i <= self.module.steps@.len(),
                steps == text::texts(self.module.steps@),
                out@ == module_text(steps.take(i as int)),
            decreases self.module.steps.len() - i,
        {
            proof {
                assert(steps.take(i + 1).drop_last() =~= steps.take(i as int));
            }
            out.append(text::join3("module.", self.module.steps[i].as_str(), ".").as_str());
            i += 1;
        }
        proof {
            assert(steps.take(steps.len() as int) =~= steps);
        }
        match self.kind {
            ResourceKind::Managed => {},
            ResourceKind::Data => out.append("data."),
        }
        proof {
            if self.kind is Managed {
                assert(out@ + Seq::<char>::empty() =~= out@);
            }
        }
        out.append(self.type_id.0.as_str());
        out.append(".");
        out.append(self.name.as_str());
        match &self.key {
            Some(k) => out.append(text::join3("[", k.as_str(), "]").as_str()),
            None => {
                proof {
                    assert(out@ + Seq::<char>::empty() =~= out@);
                }
            },
        }
        out
    }
}

// ── Providers ──────────────────────────────────────────────────────

/// A provider as a workspace names it.
#[derive(Clone, Debug)]
pub struct ProviderReference {
    pub source: String,
    pub name: String,
    pub alias: Option<String>,
}

/// What a [`ProviderReference`] holds.
pub struct ProviderReferenceV {
    pub source: Seq<char>,
    pub name: Seq<char>,
    pub alias: Option<Seq<char>>,
}

impl View for ProviderReference {
    type V = ProviderReferenceV;

    open spec fn view(&self) -> ProviderReferenceV {
        ProviderReferenceV { source: self.source@, name: self.name@, alias: opt_text(self.alias) }
    }
}

/// The provider instance that a resource is pinned to: a bare provider name.
#[derive(Debug)]
pub struct ProviderInstance {
    pub name: String,
}

/// Why a `provider` argument cannot be honoured.
#[derive(Debug)]
pub enum ProviderInstanceError {
    /// No name.
    Empty,
    /// `<provider>.<alias>`: only the default instance can be reached.
    Aliased(String),
}

pub enum ProviderInstanceErrorV {
    Empty,
    Aliased(Seq<char>),
}

impl View for ProviderInstanceError {
    type V = ProviderInstanceErrorV;

    open spec fn view(&self) -> ProviderInstanceErrorV {
        match self {
            ProviderInstanceError::Empty => ProviderInstanceErrorV::Empty,
            ProviderInstanceError::Aliased(s) => ProviderInstanceErrorV::Aliased(s@),
        }
    }
}

/// The provider name that an argument stands for.
pub open spec fn provider_instance(s: Seq<char>) -> Result<Seq<char>, ProviderInstanceErrorV> {
    if s.len() == 0 {
        Err(ProviderInstanceErrorV::Empty)
    } else if s.contains('.') {
        Err(ProviderInstanceErrorV::Aliased(s))
    } else {
        Ok(s)
    }
}

impl ProviderInstance {
    /// Read a `provider` argument.
    pub fn parse(s: &str) -> (r: Result<Self, ProviderInstanceError>)
        ensures
            match r {
                Ok(p) => provider_instance(s@) == Ok::<Seq<char>, ProviderInstanceErrorV>(p.name@),
                Err(e) => provider_instance(s@) == Err::<Seq<char>, ProviderInstanceErrorV>(e@),
            },
    {
        let v = text::chars_of(s);
        if v.len() == 0 {
            return Err(ProviderInstanceError::Empty);
        }
        let i = text::find_char(&v, '.', 0);
        proof {
            assert(s@.skip(0) =~= s@);
            text::lemma_first_at_is(s@, '.');
        }
        if i < v.len() {
            proof {
                assert(s@[i as int] == '.');
            }
            Err(ProviderInstanceError::Aliased(s.to_owned()))
        } else {
            Ok(ProviderInstance { name: s.to_owned() })
        }
    }

    pub fn name(&self) -> (r: &str)
        ensures
            r@ == self.name@,
    {
        self.name.as_str()
    }
}

impl ProviderInstanceError {
    /// The error as text.
    pub fn message(&self) -> (r: String)
        ensures
            r@ == provider_error_text(self@),
    {
        match self {
            ProviderInstanceError::Empty => "the `provider` meta-argument names no provider".to_owned(),
            ProviderInstanceError::Aliased(s) => text::join3(
                "provider alias `",
                s.as_str(),
                "` cannot be honoured: only the default instance of a provider is dialled",
            ),
        }
    }
}

pub open spec fn provider_error_text(e: ProviderInstanceErrorV) -> Seq<char> {
    match e {
        ProviderInstanceErrorV::Empty => "the `provider` meta-argument names no provider"@,
        ProviderInstanceErrorV::Aliased(s) => "provider alias `"@ + s
            + "` cannot be honoured: only the default instance of a provider is dialled"@,
    }
}

/// The meta-arguments of a resource.
#[derive(Debug)]
pub struct ResourceMeta {
    pub provider: Option<ProviderInstance>,
    pub depends_on: Vec<ResourceAddress>,
}

/// What a [`ResourceMeta`] holds.
pub struct MetaV {
    pub provider: Option<Seq<char>>,
    pub depends_on: Seq<AddressV>,
}

impl View for ResourceMeta {
    type V = MetaV;

    open spec fn view(&self) -> MetaV {
        MetaV {
            provider: match self.provider {
                Some(p) => Some(p.name@),
                None => None,
            },
            depends_on: addresses(self.depends_on@),
        }
    }
}

pub open spec fn no_meta() -> MetaV {
    MetaV { provider: None, depends_on: Seq::empty() }
}

impl Default for ResourceMeta {
    fn default() -> (r: Self)
        ensures
            r@ == no_meta(),
    {
        let r = ResourceMeta { provider: None, depends_on: Vec::new() };
        proof {
            assert(r@.depends_on =~= Seq::empty());
        }
        r
    }
}

impl ResourceMeta {
    pub fn is_empty(&self) -> (r: bool)
        ensures
            r == (self@ == no_meta()),
    {
        proof {
            assert(self.depends_on@.len() == 0 ==> self@.depends_on =~= Seq::empty());
            assert(self@.depends_on.len() == self.depends_on@.len());
        }
        self.provider.is_none() && self.depends_on.len() == 0
    }
}

// ── Changes ────────────────────────────────────────────────────────

/// What a plan of resources does with one of them.
#[derive(Clone, Copy, Debug, PartialEq, Eq, Structural)]
pub enum ResourceAction {
    NoOp,
    Create,
    Read,
    Update,
    Delete,
    Replace,
    CreateThenDelete,
    DeleteThenCreate,
    Forget,
}

/// A change to a resource.
#[derive(Debug)]
pub struct ResourceChange {
    pub address: ResourceAddress,
    pub action: ResourceAction,
    pub before: Option<Json>,
    pub after: Option<Json>,
}

// ── State ──────────────────────────────────────────────────────────

/// How far an instance has come.
#[derive(Clone, Copy, Debug, PartialEq, Eq, Structural)]
pub enum InstanceStatus {
    Ready,
    Tainted,
}

/// One instance of a resource.
#[derive(Clone, Debug)]
pub struct StateInstance {
    pub index_key: Option<String>,
    pub schema_version: u64,
    pub attributes: Json,
    pub sensitive_attribute_paths: Vec<String>,
    pub private: Vec<u8>,
    pub dependencies: Vec<String>,
    pub status: InstanceStatus,
}

/// A resource with its instances.
#[derive(Clone, Debug)]
pub struct StateResource {
    pub address: ResourceAddress,
    pub provider: ProviderReference,
    pub instances: Vec<StateInstance>,
}

/// The state of a workspace.
#[derive(Debug)]
pub struct State {
    pub version: u64,
    pub terraform_version: String,
    pub serial: u64,
    /// The identity of the state's history, as the 128 bits of a UUID.
    pub lineage: u128,
    pub outputs: Vec<(String, Json)>,
    pub resources: Vec<StateResource>,
}

/// The modules of an address stand before it in order, each with the word
/// before its name.
pub proof fn law_modules_in_order(a: Seq<Seq<char>>, b: Seq<Seq<char>>, name: Seq<char>)
    ensures
        module_text(a + b) == module_text(a) + module_text(b),
        module_text(seq![name]) == "module."@ + name + "."@,
        module_text(Seq::<Seq<char>>::empty()) == Seq::<char>::empty(),
    decreases b.len(),
{
    assert(seq![name].drop_last() =~= Seq::<Seq<char>>::empty());
    assert(module_text(seq![name].drop_last()) =~= Seq::<char>::empty());
    assert(module_text(seq![name]) =~= "module."@ + name + "."@);
    if b.len() == 0 {
        assert(a + b =~= a);
        assert(module_text(a) + module_text(b) =~= module_text(a));
    } else {
        law_modules_in_order(a, b.drop_last(), name);
        assert((a + b).drop_last() =~= a + b.drop_last());
        assert(module_text(a + b) =~= module_text(a) + module_text(b));
    }
}

/// An address in the root module is its type and name, with `data.` before it
/// for a data source and the key in brackets behind it where it has one.
pub proof fn law_addresses_in_words(t: Seq<char>, n: Seq<char>, k: Seq<char>)
    ensures
        address_text(root_address(ResourceKind::Managed, t, n)) == t + "."@ + n,
        address_text(root_address(ResourceKind::Data, t, n)) == "data."@ + t + "."@ + n,
        address_text(
            AddressV { key: Some(k), ..root_address(ResourceKind::Managed, t, n) },
        ) == t + "."@ + n + "["@ + k + "]"@,
{
    assert(address_text(root_address(ResourceKind::Managed, t, n)) =~= t + "."@ + n);
    assert(address_text(root_address(ResourceKind::Data, t, n)) =~= "data."@ + t + "."@ + n);
    assert(address_text(AddressV { key: Some(k), ..root_address(ResourceKind::Managed, t, n) })
        =~= t + "."@ + n + "["@ + k + "]"@);
}

/// A provider is named by a word without a dot, and by nothing else.
pub proof fn law_providers_are_plain_words(s: Seq<char>)
    ensures
        provider_instance(s) is Ok <==> s.len() > 0 && forall|i: int|
            0 <= i < s.len() ==> #[trigger] s[i] != '.',
        provider_instance(s) matches Ok(p) ==> p == s,
        provider_instance(s) matches Err(ProviderInstanceErrorV::Aliased(a)) ==> a == s,
        provider_instance(s) == Err::<Seq<char>, ProviderInstanceErrorV>(
            ProviderInstanceErrorV::Empty,
        ) <==> s.len() == 0,
{
    if s.contains('.') {
        let i = choose|i: int| 0 <= i < s.len() && s[i] == '.';
        assert(s[i] == '.');
    }
}

} // verus!
