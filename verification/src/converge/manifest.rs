//! Objects of a cluster: what they are, what they carry, what is wanted and
//! what was found.
use vstd::prelude::*;
use crate::json::Json;
use crate::converge::inventory::{RefV, ResourceRef};
use crate::converge::meta::ObjectMeta;
use crate::text;
use crate::text::cut;

verus! {

/// What an object is.
#[derive(Clone, Debug, PartialEq, Eq)]
pub struct TypeMeta {
    /// `<group>/<version>`, or `<version>` in the core group.
    pub api_version: String,
    pub kind: String,
}

/// The group in `<group>/<version>`; empty where there is none.
pub open spec fn group_in(api_version: Seq<char>) -> Seq<char> {
    match cut(api_version, '/') {
        Some((g, _)) => g,
        None => Seq::empty(),
    }
}

/// The version in `<group>/<version>`; all of it where there is no group.
pub open spec fn version_in(api_version: Seq<char>) -> Seq<char> {
    match cut(api_version, '/') {
        Some((_, v)) => v,
        None => api_version,
    }
}

/// `<group>/<version>`, or `<version>` where the group is empty.
pub open spec fn api_version_of(group: Seq<char>, version: Seq<char>) -> Seq<char> {
    if group.len() == 0 {
        version
    } else {
        group + "/"@ + version
    }
}

impl Default for TypeMeta {
    fn default() -> (r: Self)
        ensures
            r.api_version@ == Seq::<char>::empty(),
            r.kind@ == Seq::<char>::empty(),
    {
        TypeMeta { api_version: String::new(), kind: String::new() }
    }
}

impl TypeMeta {
    pub fn new(api_version: &str, kind: &str) -> (r: Self)
        ensures
            r.api_version@ == api_version@,
            r.kind@ == kind@,
    {
        TypeMeta { api_version: api_version.to_owned(), kind: kind.to_owned() }
    }

    pub fn from_gvk(group: &str, version: &str, kind: &str) -> (r: Self)
        ensures
            r.api_version@ == api_version_of(group@, version@),
            r.kind@ == kind@,
    {
        let api_version = if text::is_empty(group) {
            version.to_owned()
        } else {
            text::join3(group, "/", version)
        };
        TypeMeta { api_version, kind: kind.to_owned() }
    }

    /// The group; empty for the core group.
    pub fn group(&self) -> (r: String)
        ensures
            r@ == group_in(self.api_version@),
    {
        match text::split_once(self.api_version.as_str(), '/') {
            Some((g, _)) => g,
            None => String::new(),
        }
    }

    /// The version.
    pub fn version(&self) -> (r: String)
        ensures
            r@ == version_in(self.api_version@),
    {
        match text::split_once(self.api_version.as_str(), '/') {
            Some((_, v)) => v,
            None => self.api_version.clone(),
        }
    }

    /// Whether the object is in the core group.
    pub fn is_core(&self) -> (r: bool)
        ensures
            r == !self.api_version@.contains('/'),
    {
        let v = text::chars_of(self.api_version.as_str());
        let i = text::find_char(&v, '/', 0);
        proof {
            let s = self.api_version@;
            assert(s.skip(0) =~= s);
            text::lemma_first_at_is(s, '/');
            if i < s.len() {
                assert(s[i as int] == '/');
            }
        }
        i == v.len()
    }
}

/// An object.
#[derive(Clone, Debug, PartialEq, Eq)]
pub struct Manifest<S, T = Json> {
    pub type_meta: TypeMeta,
    pub metadata: ObjectMeta,
    pub spec_: S,
    /// Nothing until a controller has looked at the object.
    pub status: Option<T>,
}

impl<S, T> Manifest<S, T> {
    pub fn new(api_version: &str, kind: &str, metadata: ObjectMeta, spec_: S) -> (r: Self)
        ensures
            r.type_meta.api_version@ == api_version@,
            r.type_meta.kind@ == kind@,
            r.metadata == metadata,
            r.spec_ == spec_,
            r.status is None,
    {
        Manifest { type_meta: TypeMeta::new(api_version, kind), metadata, spec_, status: None }
    }

    pub fn from_gvk(group: &str, version: &str, kind: &str, metadata: ObjectMeta, spec_: S) -> (r: Self)
        ensures
            r.type_meta.api_version@ == api_version_of(group@, version@),
            r.type_meta.kind@ == kind@,
            r.metadata == metadata,
            r.spec_ == spec_,
            r.status is None,
    {
        Manifest { type_meta: TypeMeta::from_gvk(group, version, kind), metadata, spec_, status: None }
    }

    /// With a status.
    pub fn with_status(self, status: T) -> (r: Self)
        ensures
            r == (Manifest { status: Some(status), ..self }),
    {
        let mut r = self;
        r.status = Some(status);
        r
    }

    pub fn has_status(&self) -> (r: bool)
        ensures
            r == (self.status is Some),
    {
        self.status.is_some()
    }

    /// The object as a resource.
    pub fn to_resource_ref(&self) -> (r: ResourceRef)
        ensures
            r@ == (RefV {
                group: group_in(self.type_meta.api_version@),
                version: version_in(self.type_meta.api_version@),
                kind: self.type_meta.kind@,
                namespace: if self.metadata.namespace@.len() == 0 {
                    None
                } else {
                    Some(self.metadata.namespace@)
                },
                name: self.metadata.name@,
            }),
    {
        self.metadata.to_resource_ref(
            self.type_meta.group().as_str(),
            self.type_meta.version().as_str(),
            self.type_meta.kind.as_str(),
        )
    }

    pub fn name(&self) -> (r: &str)
        ensures
            r@ == self.metadata.name@,
    {
        self.metadata.name.as_str()
    }

    pub fn namespace(&self) -> (r: &str)
        ensures
            r@ == self.metadata.namespace@,
    {
        self.metadata.namespace.as_str()
    }
}

/// A group without a slash and a version come back from the two joined; in
/// the core group, a version without a slash does.
pub proof fn law_group_and_version_come_back(group: Seq<char>, version: Seq<char>)
    requires
        !group.contains('/'),
        group.len() == 0 ==> !version.contains('/'),
    ensures
        group_in(api_version_of(group, version)) == group,
        version_in(api_version_of(group, version)) == version,
{
    reveal_strlit("/");
    let s = api_version_of(group, version);
    if group.len() == 0 {
        text::lemma_first_at_is(s, '/');
        let i = text::first_at(s, '/');
        if i < s.len() {
            assert(s[i] == '/');
            assert(version.contains('/'));
        }
        assert(group =~= Seq::empty());
    } else {
        let n = group.len() as int;
        assert forall|j: int| 0 <= j < n implies s[j] != '/' by {
            assert(s[j] == group[j]);
            assert(group.contains(group[j]));
        }
        assert(s[n] == '/');
        text::lemma_first_at(s, '/', n);
        assert(s.take(n) =~= group);
        assert(s.skip(n + 1) =~= version);
    }
}

/// An API version is cut at its first slash into group and version; without
/// one it is the version, and the group is empty.
pub proof fn law_api_versions_are_cut(a: Seq<char>, b: Seq<char>)
    requires
        !a.contains('/'),
    ensures
        group_in(a + seq!['/'] + b) == a,
        version_in(a + seq!['/'] + b) == b,
        group_in(a).len() == 0,
        version_in(a) == a,
{
    text::law_cut_at_the_first(a, '/', b);
}

} // verus!
