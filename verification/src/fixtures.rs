//! Builders for configurations and states, as tests and examples need them.
use vstd::prelude::*;
use crate::converge::diff::Named;
use crate::json;
use crate::json::{
    clone_object, json_pretty, lemma_object_view, members_view, object_view, Json, JsonV,
};
use crate::ordmap::{
    collect, lemma_map_vals_lookup, lemma_map_vals_put, lemma_put_lookup, lemma_put_sorted, lookup,
    map_vals, put, sorted, StrMap,
};
use crate::types::{
    root_address, InstanceStatus, ProviderReference, ProviderReferenceV, ResourceAddress,
    ResourceKind, State, StateInstance, StateResource,
};

verus! {

// ── Configurations ─────────────────────────────────────────────────

/// A configuration in the making.
#[derive(Clone, Debug)]
pub struct TfJsonBuilder {
    provider: StrMap<Json>,
    resources: Vec<(String, String, Json)>,
    outputs: Vec<(String, Json)>,
}

/// Resources by type and name.
pub type Given = Seq<(Seq<char>, Seq<char>, JsonV)>;

pub open spec fn given_view(v: Seq<(String, String, Json)>) -> Given {
    Seq::new(v.len(), |i: int| (v[i].0@, v[i].1@, v[i].2@))
}

/// The resources of one type.
pub open spec fn of_type(m: Seq<(Seq<char>, Named)>, ty: Seq<char>) -> Named {
    match lookup(m, ty) {
        Some(x) => x,
        None => Seq::empty(),
    }
}

/// Resources gathered by type, then by name; of two with one type and one
/// name the later one stays.
pub open spec fn grouped(rs: Given) -> Seq<(Seq<char>, Named)>
    decreases rs.len(),
{
    if rs.len() == 0 {
        Seq::empty()
    } else {
        let m = grouped(rs.drop_last());
        let r = rs.last();
        put(m, r.0, put(of_type(m, r.0), r.1, r.2))
    }
}

/// Outputs, each as an object with its value.
pub open spec fn output_entries(os: Named) -> Named {
    Seq::new(os.len(), |i: int| (os[i].0, JsonV::Object(seq![("value"@, os[i].1)])))
}

/// A configuration as JSON: an entry for the outputs only where there are
/// any.
pub open spec fn configuration(provider: Named, rs: Given, os: Named) -> JsonV {
    let body = seq![
        ("provider"@, JsonV::Object(provider)),
        ("resource"@, JsonV::Object(map_vals(grouped(rs), |m: Named| JsonV::Object(m)))),
    ];
    JsonV::Object(
        if os.len() == 0 {
            body
        } else {
            seq![("output"@, JsonV::Object(collect(output_entries(os))))] + body
        },
    )
}

/// The provider that a new configuration comes with.
pub open spec fn usual_provider() -> Named {
    seq![("aws"@, JsonV::Object(seq![("region"@, JsonV::String("us-east-1"@))]))]
}

/// One member in an object.
fn single(key: &str, v: Json) -> (r: Json)
    ensures
        r@ == JsonV::Object(seq![(key@, v@)]),
{
    let m = StrMap { entries: vec![(key.to_owned(), v)] };
    proof {
        lemma_object_view(m);
        assert(object_view(m@) =~= seq![(key@, v@)]);
    }
    Json::Object(m)
}

impl TfJsonBuilder {
    /// The providers.
    pub closed spec fn providers(&self) -> Named {
        object_view(self.provider@)
    }

    /// The resources, in the order in which they were given.
    pub closed spec fn given(&self) -> Given {
        given_view(self.resources@)
    }

    /// The outputs, in the order in which they were given.
    pub closed spec fn outputs(&self) -> Named {
        members_view(self.outputs@)
    }

    /// No resources, no outputs, and a provider for AWS in `us-east-1`.
    pub fn new() -> (r: Self)
        ensures
            r.providers() == usual_provider(),
            r.given() == Seq::<(Seq<char>, Seq<char>, JsonV)>::empty(),
            r.outputs() == Seq::<(Seq<char>, JsonV)>::empty(),
    {
        let region = single("region", Json::string("us-east-1"));
        let r = TfJsonBuilder {
            provider: StrMap { entries: vec![("aws".to_owned(), region)] },
            resources: Vec::new(),
            outputs: Vec::new(),
        };
        proof {
            assert(r.providers() =~= usual_provider());
            assert(r.given() =~= Seq::empty());
            assert(r.outputs() =~= Seq::empty());
        }
        r
    }

    /// Without any provider.
    pub fn no_default_provider(self) -> (r: Self)
        ensures
            r.providers() == Seq::<(Seq<char>, JsonV)>::empty(),
            r.given() == self.given(),
            r.outputs() == self.outputs(),
    {
        let r = TfJsonBuilder {
            provider: StrMap::new(),
            resources: self.resources,
            outputs: self.outputs,
        };
        proof {
            assert(r.providers() =~= Seq::empty());
        }
        r
    }

    /// With a provider; one of the same name is replaced.
    pub fn provider(self, name: &str, config: Json) -> (r: Self)
        ensures
            r.providers() == put(self.providers(), name@, config@),
            r.given() == self.given(),
            r.outputs() == self.outputs(),
    {
        let mut provider = self.provider;
        proof {
            lemma_map_vals_put(provider@, |v: Json| v@, name@, config);
        }
        provider.insert(name.to_owned(), config);
        TfJsonBuilder { provider, resources: self.resources, outputs: self.outputs }
    }

    /// With a resource.
    pub fn resource(self, type_id: &str, name: &str, attributes: Json) -> (r: Self)
        ensures
            r.providers() == self.providers(),
            r.given() == self.given().push((type_id@, name@, attributes@)),
            r.outputs() == self.outputs(),
    {
        let mut resources = self.resources;
        resources.push((type_id.to_owned(), name.to_owned(), attributes));
        let r = TfJsonBuilder { provider: self.provider, resources, outputs: self.outputs };
        proof {
            assert(r.given() =~= self.given().push((type_id@, name@, attributes@)));
        }
        r
    }

    /// With an output.
    pub fn output(self, name: &str, value: Json) -> (r: Self)
        ensures
            r.providers() == self.providers(),
            r.given() == self.given(),
            r.outputs() == self.outputs().push((name@, value@)),
    {
        let mut outputs = self.outputs;
        outputs.push((name.to_owned(), value));
        let r = TfJsonBuilder { provider: self.provider, resources: self.resources, outputs };
        proof {
            assert(r.outputs() =~= self.outputs().push((name@, value@)));
        }
        r
    }

    /// The resources, gathered by type and name.
    fn gather(&self) -> (r: StrMap<StrMap<Json>>)
        ensures
            map_vals(r@, |m: StrMap<Json>| object_view(m@)) == grouped(self.given()),
    {
        let ghost all = self.given();
        let ghost f = |m: StrMap<Json>| object_view(m@);
        let mut out: StrMap<StrMap<Json>> = StrMap::new();
        let mut i: usize = 0;
        proof {
            assert(all.take(0) =~= Seq::empty());
            assert(map_vals(out@, f) =~= grouped(all.take(0)));
        }
        while i < self.resources.len()
            invariant
                i <= self.resources@.len(),
                all == self.given(),
                f == (|m: StrMap<Json>| object_view(m@)),
                map_vals(out@, f) == grouped(all.take(i as int)),
            decreases self.resources.len() - i,
        {
            let r = &self.resources[i];
            proof {
                assert(all.take(i + 1).drop_last() =~= all.take(i as int));
                assert(all.take(i + 1).last() == (r.0@, r.1@, r.2@));
                lemma_map_vals_lookup(out@, f, r.0@);
            }
            let mut inner: StrMap<Json> = match out.get(r.0.as_str()) {
                Some(m) => clone_object(m),
                None => StrMap::new(),
            };
            proof {
                assert(object_view(inner@) =~= of_type(grouped(all.take(i as int)), r.0@));
            }
            let v: Json = r.2.clone();
            proof {
                lemma_map_vals_put(inner@, |x: Json| x@, r.1@, v);
            }
            inner.insert(r.1.clone(), v);
            proof {
                lemma_map_vals_put(out@, f, r.0@, inner);
            }
            out.insert(r.0.clone(), inner);
            i += 1;
        }
        proof {
            assert(all.take(all.len() as int) =~= all);
        }
        out
    }

    /// The outputs, each with its value in an object.
    fn output_object(&self) -> (r: Json)
        ensures
            r@ == JsonV::Object(collect(output_entries(self.outputs()))),
    {
        let mut members: Vec<(String, Json)> = Vec::new();
        let mut i: usize = 0;
        while i < self.outputs.len()
            invariant
                i <= self.outputs@.len(),
                members@.len() == i,
                forall|j: int|
                    0 <= j < i ==> (#[trigger] members@[j]).0@ == self.outputs@[j].0@
                        && members@[j].1@ == JsonV::Object(seq![("value"@, self.outputs@[j].1@)]),
            decreases self.outputs.len() - i,
        {
            let o = &self.outputs[i];
            members.push((o.0.clone(), single("value", o.1.clone())));
            i += 1;
        }
        proof {
            assert(members_view(members@) =~= output_entries(self.outputs()));
        }
        Json::object(members)
    }

    /// The configuration as JSON.
    pub fn to_value(&self) -> (r: Json)
        ensures
            r@ == configuration(self.providers(), self.given(), self.outputs()),
    {
        let gathered = self.gather();
        let ghost goal = map_vals(grouped(self.given()), |m: Named| JsonV::Object(m));
        let mut kinds: Vec<(String, Json)> = Vec::new();
        let mut i: usize = 0;
        while i < gathered.entries.len()
            invariant
                i <= gathered.entries@.len(),
                kinds@.len() == i,
                forall|j: int|
                    0 <= j < i ==> (#[trigger] kinds@[j]).0@ == gathered.entries@[j].0@
                        && kinds@[j].1@ == JsonV::Object(object_view(gathered.entries@[j].1@)),
            decreases gathered.entries.len() - i,
        {
            let e = &gathered.entries[i];
            let m = clone_object(&e.1);
            proof {
                lemma_object_view(m);
            }
            kinds.push((e.0.clone(), Json::Object(m)));
            i += 1;
        }
        let resource = StrMap { entries: kinds };
        proof {
            lemma_object_view(resource);
            let g = map_vals(gathered@, |m: StrMap<Json>| object_view(m@));
            assert(object_view(resource@) =~= goal) by {
                assert forall|j: int| 0 <= j < goal.len() implies object_view(resource@)[j]
                    == #[trigger] goal[j] by {
                    assert(g[j] == grouped(self.given())[j]);
                }
            }
        }
        let provider = clone_object(&self.provider);
        proof {
            lemma_object_view(provider);
        }
        let mut top: Vec<(String, Json)> = Vec::new();
        if self.outputs.len() > 0 {
            top.push(("output".to_owned(), self.output_object()));
        }
        top.push(("provider".to_owned(), Json::Object(provider)));
        top.push(("resource".to_owned(), Json::Object(resource)));
        let m = StrMap { entries: top };
        proof {
            lemma_object_view(m);
            assert(object_view(m@) =~= configuration(
                self.providers(),
                self.given(),
                self.outputs(),
            )->Object_0);
        }
        Json::Object(m)
    }

    /// The configuration as indented JSON text.
    pub fn to_pretty_json(&self) -> (r: String)
        ensures
            r@ == json_pretty(configuration(self.providers(), self.given(), self.outputs())),
    {
        json::to_pretty_text(&self.to_value())
    }
}

impl Default for TfJsonBuilder {
    fn default() -> (r: Self)
        ensures
            r.providers() == Seq::<(Seq<char>, JsonV)>::empty(),
            r.given() == Seq::<(Seq<char>, Seq<char>, JsonV)>::empty(),
            r.outputs() == Seq::<(Seq<char>, JsonV)>::empty(),
    {
        TfJsonBuilder::new().no_default_provider()
    }
}

/// The last resource that was given with a type and a name.
pub open spec fn last_given(rs: Given, ty: Seq<char>, name: Seq<char>) -> Option<JsonV>
    decreases rs.len(),
{
    if rs.len() == 0 {
        None
    } else if rs.last().0 == ty && rs.last().1 == name {
        Some(rs.last().2)
    } else {
        last_given(rs.drop_last(), ty, name)
    }
}

proof fn lemma_grouped_sorted(rs: Given, ty: Seq<char>)
    ensures
        sorted(grouped(rs)),
        sorted(of_type(grouped(rs), ty)),
    decreases rs.len(),
{
    if rs.len() > 0 {
        let m = grouped(rs.drop_last());
        let r = rs.last();
        lemma_grouped_sorted(rs.drop_last(), ty);
        lemma_grouped_sorted(rs.drop_last(), r.0);
        let inner = put(of_type(m, r.0), r.1, r.2);
        lemma_put_sorted(of_type(m, r.0), r.1, r.2);
        lemma_put_sorted(m, r.0, inner);
        lemma_put_lookup(m, r.0, inner, ty);
    }
}

/// Every resource is found under its type and its name, as it was last given.
pub proof fn law_resources_are_found(rs: Given, ty: Seq<char>, name: Seq<char>)
    ensures
        lookup(of_type(grouped(rs), ty), name) == last_given(rs, ty, name),
    decreases rs.len(),
{
    if rs.len() > 0 {
        let m = grouped(rs.drop_last());
        let r = rs.last();
        law_resources_are_found(rs.drop_last(), ty, name);
        lemma_grouped_sorted(rs.drop_last(), r.0);
        let inner = put(of_type(m, r.0), r.1, r.2);
        lemma_put_lookup(m, r.0, inner, ty);
        lemma_put_lookup(of_type(m, r.0), r.1, r.2, name);
    }
}

// ── States ─────────────────────────────────────────────────────────

/// `uuid::Uuid::new_v4`: a random UUID, as its 128 bits. The four bits that
/// give the version hold 4, the two that give the variant hold 2.
#[verifier::external_body]
fn fresh_lineage() -> (r: u128)
    ensures
        (r / 0x1000_0000_0000_0000_0000) % 16 == 4,
        (r / 0x4000_0000_0000_0000) % 4 == 2,
{
    uuid::Uuid::new_v4().as_u128()
}

/// A state in the making.
#[derive(Clone, Debug)]
pub struct StateBuilder {
    pub terraform_version: String,
    pub serial: u64,
    pub lineage: u128,
    pub resources: Vec<StateResource>,
}

/// A managed resource with one instance that is ready.
pub open spec fn plain_resource(
    r: StateResource,
    type_id: Seq<char>,
    name: Seq<char>,
    attributes: JsonV,
    source: Seq<char>,
    provider: Seq<char>,
) -> bool {
    &&& r.address@ == root_address(ResourceKind::Managed, type_id, name)
    &&& r.provider@ == (ProviderReferenceV { source, name: provider, alias: None })
    &&& r.instances@.len() == 1
    &&& r.instances@[0].index_key is None
    &&& r.instances@[0].schema_version == 0
    &&& r.instances@[0].attributes@ == attributes
    &&& r.instances@[0].sensitive_attribute_paths@.len() == 0
    &&& r.instances@[0].private@.len() == 0
    &&& r.instances@[0].dependencies@.len() == 0
    &&& r.instances@[0].status == InstanceStatus::Ready
}

impl StateBuilder {
    /// No resources, the first serial, and a new lineage.
    pub fn new() -> (r: Self)
        ensures
            r.terraform_version@ == "1.7.0"@,
            r.serial == 1,
            (r.lineage / 0x1000_0000_0000_0000_0000) % 16 == 4,
            (r.lineage / 0x4000_0000_0000_0000) % 4 == 2,
            r.resources@.len() == 0,
    {
        StateBuilder {
            terraform_version: "1.7.0".to_owned(),
            serial: 1,
            lineage: fresh_lineage(),
            resources: Vec::new(),
        }
    }

    /// With this lineage.
    pub fn lineage(self, uuid: u128) -> (r: Self)
        ensures
            r == (StateBuilder { lineage: uuid, ..self }),
    {
        StateBuilder { lineage: uuid, ..self }
    }

    /// With this serial.
    pub fn serial(self, serial: u64) -> (r: Self)
        ensures
            r == (StateBuilder { serial, ..self }),
    {
        StateBuilder { serial, ..self }
    }

    /// With a managed resource of the AWS provider.
    pub fn resource(self, type_id: &str, name: &str, attributes: Json) -> (r: Self)
        ensures
            r.terraform_version == self.terraform_version,
            r.serial == self.serial,
            r.lineage == self.lineage,
            r.resources@.len() == self.resources@.len() + 1,
            r.resources@.drop_last() == self.resources@,
            plain_resource(
                r.resources@.last(),
                type_id@,
                name@,
                attributes@,
                "hashicorp/aws"@,
                "aws"@,
            ),
    {
        self.resource_with_provider(type_id, name, attributes, "hashicorp/aws", "aws")
    }

    /// With a managed resource of a given provider.
    pub fn resource_with_provider(
        self,
        type_id: &str,
        name: &str,
        attributes: Json,
        provider_source: &str,
        provider_name: &str,
    ) -> (r: Self)
        ensures
            r.terraform_version == self.terraform_version,
            r.serial == self.serial,
            r.lineage == self.lineage,
            r.resources@.len() == self.resources@.len() + 1,
            r.resources@.drop_last() == self.resources@,
            plain_resource(
                r.resources@.last(),
                type_id@,
                name@,
                attributes@,
                provider_source@,
                provider_name@,
            ),
    {
        let instance = StateInstance {
            index_key: None,
            schema_version: 0,
            attributes,
            sensitive_attribute_paths: Vec::new(),
            private: Vec::new(),
            dependencies: Vec::new(),
            status: InstanceStatus::Ready,
        };
        let one = StateResource {
            address: ResourceAddress::root(
                ResourceKind::Managed,
                type_id.to_owned(),
                name.to_owned(),
            ),
            provider: ProviderReference {
                source: provider_source.to_owned(),
                name: provider_name.to_owned(),
                alias: None,
            },
            instances: vec![instance],
        };
        let mut resources = self.resources;
        resources.push(one);
        proof {
            assert(resources@.drop_last() =~= self.resources@);
        }
        StateBuilder {
            terraform_version: self.terraform_version,
            serial: self.serial,
            lineage: self.lineage,
            resources,
        }
    }

    /// The state.
    pub fn build(self) -> (r: State)
        ensures
            r.version == 4,
            r.terraform_version == self.terraform_version,
            r.serial == self.serial,
            r.lineage == self.lineage,
            r.outputs@.len() == 0,
            r.resources == self.resources,
    {
        State {
            version: 4,
            terraform_version: self.terraform_version,
            serial: self.serial,
            lineage: self.lineage,
            outputs: Vec::new(),
            resources: self.resources,
        }
    }
}

impl Default for StateBuilder {
    fn default() -> (r: Self)
        ensures
            r.terraform_version@ == "1.7.0"@,
            r.serial == 1,
            (r.lineage / 0x1000_0000_0000_0000_0000) % 16 == 4,
            (r.lineage / 0x4000_0000_0000_0000) % 4 == 2,
            r.resources@.len() == 0,
    {
        StateBuilder::new()
    }
}

/// What counts of the resources of one type and name is the one given last.
pub proof fn law_last_resource_counts(rs: Given, ty: Seq<char>, name: Seq<char>, i: int)
    ensures
        0 <= i < rs.len() && rs[i].0 == ty && rs[i].1 == name && (forall|j: int|
            i < j < rs.len() ==> (#[trigger] rs[j]).0 != ty || rs[j].1 != name) ==> last_given(
            rs,
            ty,
            name,
        ) == Some(rs[i].2),
        (forall|j: int| 0 <= j < rs.len() ==> (#[trigger] rs[j]).0 != ty || rs[j].1 != name)
            ==> last_given(rs, ty, name) is None,
    decreases rs.len(),
{
    if rs.len() > 0 {
        let front = rs.drop_last();
        let n = rs.len() - 1;
        law_last_resource_counts(front, ty, name, i);
        assert(rs.last() == rs[n]);
        assert forall|j: int| 0 <= j < front.len() implies #[trigger] front[j] == rs[j] by {}
        if 0 <= i < n && rs[i].0 == ty && rs[i].1 == name && (forall|j: int|
            i < j < rs.len() ==> (#[trigger] rs[j]).0 != ty || rs[j].1 != name) {
            assert(rs[n].0 != ty || rs[n].1 != name);
            assert(front[i] == rs[i]);
            assert forall|j: int| i < j < front.len() implies (#[trigger] front[j]).0 != ty
                || front[j].1 != name by {
                assert(rs[j].0 != ty || rs[j].1 != name);
            }
        }
        if forall|j: int| 0 <= j < rs.len() ==> (#[trigger] rs[j]).0 != ty || rs[j].1 != name {
            assert(rs[n].0 != ty || rs[n].1 != name);
            assert forall|j: int| 0 <= j < front.len() implies (#[trigger] front[j]).0 != ty
                || front[j].1 != name by {
                assert(rs[j].0 != ty || rs[j].1 != name);
            }
        }
    }
}

/// A configuration has the providers that it was given, and outputs only where
/// any were given.
pub proof fn law_configurations(provider: Named, rs: Given, os: Named)
    ensures
        json::member(configuration(provider, rs, os), "provider"@) == Some(JsonV::Object(provider)),
        json::member(configuration(provider, rs, os), "resource"@) == Some(
            JsonV::Object(map_vals(grouped(rs), |m: Named| JsonV::Object(m))),
        ),
        json::member(configuration(provider, rs, os), "output"@) is Some <==> os.len() > 0,
        os.len() > 0 ==> json::member(configuration(provider, rs, os), "output"@) == Some(
            JsonV::Object(collect(output_entries(os))),
        ),
{
    reveal_strlit("provider");
    reveal_strlit("resource");
    reveal_strlit("output");
    assert("provider"@[0] == 'p' && "resource"@[0] == 'r' && "output"@[0] == 'o');
    let c = configuration(provider, rs, os);
    let m = c->Object_0;
    if os.len() == 0 {
        assert(m[0].0 == "provider"@ && m[1].0 == "resource"@ && m.len() == 2);
        json::law_members_and_elements(c, "provider"@, 0);
        json::law_members_and_elements(c, "resource"@, 1);
        json::law_members_and_elements(c, "output"@, 0);
    } else {
        assert(m[0].0 == "output"@ && m[1].0 == "provider"@ && m[2].0 == "resource"@);
        assert(m.len() == 3);
        json::law_members_and_elements(c, "output"@, 0);
        json::law_members_and_elements(c, "provider"@, 1);
        json::law_members_and_elements(c, "resource"@, 2);
    }
}

} // verus!
