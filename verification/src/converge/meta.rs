//! What every object of a cluster carries: names, labels, owners.
use vstd::prelude::*;
use crate::converge::inventory::{RefV, ResourceRef};
use crate::converge::selector::labels_view;
use crate::ordmap::{lemma_map_vals_put, put, StrMap};
use crate::text;
use crate::text::texts;
use crate::time::Timestamp;

verus! {

/// An object that owns another one.
#[derive(Clone, Debug, PartialEq, Eq)]
pub struct OwnerReference {
    pub api_version: String,
    pub kind: String,
    pub name: String,
    pub uid: String,
    /// Whether the owner is the one that controls the object.
    pub controller: Option<bool>,
    /// Whether the owner stays until the object is gone.
    pub block_owner_deletion: Option<bool>,
}

impl OwnerReference {
    pub fn new(api_version: &str, kind: &str, name: &str, uid: &str) -> (r: Self)
        ensures
            r.api_version@ == api_version@,
            r.kind@ == kind@,
            r.name@ == name@,
            r.uid@ == uid@,
            r.controller is None,
            r.block_owner_deletion is None,
    {
        OwnerReference {
            api_version: api_version.to_owned(),
            kind: kind.to_owned(),
            name: name.to_owned(),
            uid: uid.to_owned(),
            controller: None,
            block_owner_deletion: None,
        }
    }

    /// As the one that controls the object.
    pub fn with_controller(self) -> (r: Self)
        ensures
            r == (OwnerReference { controller: Some(true), ..self }),
    {
        let mut r = self;
        r.controller = Some(true);
        r
    }

    /// As one that stays until the object is gone.
    pub fn with_block_owner_deletion(self) -> (r: Self)
        ensures
            r == (OwnerReference { block_owner_deletion: Some(true), ..self }),
    {
        let mut r = self;
        r.block_owner_deletion = Some(true);
        r
    }

    /// Whether the owner controls the object.
    pub fn is_controller(&self) -> (r: bool)
        ensures
            r == (self.controller == Some(true)),
    {
        match self.controller {
            Some(b) => b,
            None => false,
        }
    }
}

/// What an object carries.
#[derive(Clone, Debug, PartialEq, Eq)]
pub struct ObjectMeta {
    pub name: String,
    pub generate_name: String,
    /// Empty for an object of the cluster as a whole.
    pub namespace: String,
    pub uid: String,
    pub resource_version: String,
    pub generation: Option<i64>,
    pub creation_timestamp: Option<Timestamp>,
    /// When the object was asked to go.
    pub deletion_timestamp: Option<Timestamp>,
    pub labels: StrMap<String>,
    pub annotations: StrMap<String>,
    /// Who has to agree before the object goes.
    pub finalizers: Vec<String>,
    pub owner_references: Vec<OwnerReference>,
}

impl ObjectMeta {
    /// Nothing but a name and a namespace.
    pub open spec fn bare(&self, name: Seq<char>, namespace: Seq<char>) -> bool {
        &&& self.name@ == name
        &&& self.namespace@ == namespace
        &&& self.generate_name@.len() == 0
        &&& self.uid@.len() == 0
        &&& self.resource_version@.len() == 0
        &&& self.generation is None
        &&& self.creation_timestamp is None
        &&& self.deletion_timestamp is None
        &&& self.labels@.len() == 0
        &&& self.annotations@.len() == 0
        &&& self.finalizers@.len() == 0
        &&& self.owner_references@.len() == 0
    }
}

impl Default for ObjectMeta {
    fn default() -> (r: Self)
        ensures
            r.bare(Seq::empty(), Seq::empty()),
    {
        ObjectMeta {
            name: String::new(),
            generate_name: String::new(),
            namespace: String::new(),
            uid: String::new(),
            resource_version: String::new(),
            generation: None,
            creation_timestamp: None,
            deletion_timestamp: None,
            labels: StrMap::new(),
            annotations: StrMap::new(),
            finalizers: Vec::new(),
            owner_references: Vec::new(),
        }
    }
}

/// The place of the first owner that controls, or the number of owners.
pub open spec fn controller_at(os: Seq<OwnerReference>) -> int
    decreases os.len(),
{
    if os.len() == 0 || os[0].controller == Some(true) {
        0
    } else {
        1 + controller_at(os.drop_first())
    }
}

impl ObjectMeta {
    /// An object with a name.
    pub fn new(name: &str) -> (r: Self)
        ensures
            r.bare(name@, Seq::empty()),
    {
        let mut r = ObjectMeta::default();
        r.name = name.to_owned();
        r
    }

    /// An object with a name in a namespace.
    pub fn namespaced(name: &str, namespace: &str) -> (r: Self)
        ensures
            r.bare(name@, namespace@),
    {
        let mut r = ObjectMeta::default();
        r.name = name.to_owned();
        r.namespace = namespace.to_owned();
        r
    }

    /// With one label more; one with the same key is replaced.
    pub fn with_label(self, key: &str, value: &str) -> (r: Self)
        ensures
            labels_view(r.labels@) == put(labels_view(self.labels@), key@, value@),
            r == (ObjectMeta { labels: r.labels, ..self }),
    {
        let mut r = self;
        let v = value.to_owned();
        proof {
            lemma_map_vals_put(r.labels@, |x: String| x@, key@, v);
        }
        r.labels.insert(key.to_owned(), v);
        r
    }

    /// With one annotation more; one with the same key is replaced.
    pub fn with_annotation(self, key: &str, value: &str) -> (r: Self)
        ensures
            labels_view(r.annotations@) == put(labels_view(self.annotations@), key@, value@),
            r == (ObjectMeta { annotations: r.annotations, ..self }),
    {
        let mut r = self;
        let v = value.to_owned();
        proof {
            lemma_map_vals_put(r.annotations@, |x: String| x@, key@, v);
        }
        r.annotations.insert(key.to_owned(), v);
        r
    }

    /// With one finalizer more.
    pub fn with_finalizer(self, f: &str) -> (r: Self)
        ensures
            texts(r.finalizers@) == texts(self.finalizers@).push(f@),
            r == (ObjectMeta { finalizers: r.finalizers, ..self }),
    {
        let mut r = self;
        r.finalizers.push(f.to_owned());
        proof {
            assert(texts(r.finalizers@) =~= texts(self.finalizers@).push(f@));
        }
        r
    }

    /// With one owner more.
    pub fn with_owner_reference(self, o: OwnerReference) -> (r: Self)
        ensures
            r.owner_references@ == self.owner_references@.push(o),
            r == (ObjectMeta { owner_references: r.owner_references, ..self }),
    {
        let mut r = self;
        r.owner_references.push(o);
        r
    }

    /// Whether the object was asked to go.
    pub fn is_terminating(&self) -> (r: bool)
        ensures
            r == (self.deletion_timestamp is Some),
    {
        self.deletion_timestamp.is_some()
    }

    /// Whether a finalizer is there.
    pub fn has_finalizer(&self, name: &str) -> (r: bool)
        ensures
            r == texts(self.finalizers@).contains(name@),
    {
        text::contains_text(&self.finalizers, name)
    }

    /// Add a finalizer unless it is there; true where it was added.
    pub fn add_finalizer(&mut self, name: &str) -> (r: bool)
        ensures
            r == !texts(old(self).finalizers@).contains(name@),
            texts(final(self).finalizers@) == if r {
                texts(old(self).finalizers@).push(name@)
            } else {
                texts(old(self).finalizers@)
            },
            *final(self) == (ObjectMeta { finalizers: final(self).finalizers, ..*old(self) }),
    {
        if self.has_finalizer(name) {
            false
        } else {
            self.finalizers.push(name.to_owned());
            proof {
                assert(texts(self.finalizers@) =~= texts(old(self).finalizers@).push(name@));
            }
            true
        }
    }

    /// Remove a finalizer wherever it is; true where it was there.
    pub fn remove_finalizer(&mut self, name: &str) -> (r: bool)
        ensures
            r == texts(old(self).finalizers@).contains(name@),
            texts(final(self).finalizers@) == texts(old(self).finalizers@).filter(
                |f: Seq<char>| f != name@,
            ),
            *final(self) == (ObjectMeta { finalizers: final(self).finalizers, ..*old(self) }),
    {
        let there = self.has_finalizer(name);
        let ghost all = texts(self.finalizers@);
        let mut out: Vec<String> = Vec::new();
        let mut i: usize = 0;
        proof {
            reveal(Seq::filter);
            assert(all.take(0) =~= Seq::empty());
            assert(texts(out@) =~= all.take(0).filter(|f: Seq<char>| f != name@));
        }
        while i < self.finalizers.len()
            invariant
                i <= self.finalizers@.len(),
                all == texts(self.finalizers@),
                *self == *old(self),
                texts(out@) == all.take(i as int).filter(|f: Seq<char>| f != name@),
            decreases self.finalizers.len() - i,
        {
            proof {
                reveal(Seq::filter);
                assert(all.take(i + 1).drop_last() =~= all.take(i as int));
                assert(all.take(i + 1).last() == self.finalizers@[i as int]@);
            }
            if !text::same(self.finalizers[i].as_str(), name) {
                let ghost before = texts(out@);
                let f = self.finalizers[i].clone();
                out.push(f);
                proof {
                    assert(texts(out@) =~= before.push(f@));
                }
            }
            i += 1;
        }
        proof {
            assert(all.take(all.len() as int) =~= all);
        }
        self.finalizers = out;
        there
    }

    /// The owner that controls the object: the first one, where there are
    /// several.
    pub fn controller(&self) -> (r: Option<&OwnerReference>)
        ensures
            match r {
                Some(o) => controller_at(self.owner_references@) < self.owner_references@.len() && *o
                    == self.owner_references@[controller_at(self.owner_references@)],
                None => controller_at(self.owner_references@) == self.owner_references@.len(),
            },
    {
        let mut i: usize = 0;
        let ghost os = self.owner_references@;
        proof {
            assert(os.skip(0) =~= os);
        }
        while i < self.owner_references.len()
            invariant
                i <= self.owner_references@.len(),
                os == self.owner_references@,
                controller_at(os) == i + controller_at(os.skip(i as int)),
            decreases self.owner_references.len() - i,
        {
            proof {
                assert(os.skip(i as int)[0] == os[i as int]);
                assert(os.skip(i as int).drop_first() =~= os.skip(i + 1));
            }
            if self.owner_references[i].is_controller() {
                return Some(&self.owner_references[i]);
            }
            i += 1;
        }
        None
    }

    /// Whether the owner that controls the object has this identity.
    pub fn is_controlled_by(&self, owner_uid: &str) -> (r: bool)
        ensures
            r == (controller_at(self.owner_references@) < self.owner_references@.len()
                && self.owner_references@[controller_at(self.owner_references@)].uid@ == owner_uid@),
    {
        match self.controller() {
            Some(o) => text::same(o.uid.as_str(), owner_uid),
            None => false,
        }
    }

    /// The object as a resource of the given group, version and kind.
    pub fn to_resource_ref(&self, group: &str, version: &str, kind: &str) -> (r: ResourceRef)
        ensures
            r@ == (RefV {
                group: group@,
                version: version@,
                kind: kind@,
                namespace: if self.namespace@.len() == 0 {
                    None
                } else {
                    Some(self.namespace@)
                },
                name: self.name@,
            }),
    {
        if text::is_empty(self.namespace.as_str()) {
            ResourceRef::cluster_scoped(group, version, kind, self.name.as_str())
        } else {
            ResourceRef::namespaced(group, version, kind, self.namespace.as_str(), self.name.as_str())
        }
    }
}

/// A finalizer that was removed is not there.
pub proof fn law_removed_finalizer_is_gone(fs: Seq<Seq<char>>, name: Seq<char>)
    ensures
        !fs.filter(|f: Seq<char>| f != name).contains(name),
    decreases fs.len(),
{
    reveal(Seq::filter);
    let left = fs.filter(|f: Seq<char>| f != name);
    if fs.len() > 0 {
        law_removed_finalizer_is_gone(fs.drop_last(), name);
        let t = fs.drop_last().filter(|f: Seq<char>| f != name);
        if left.contains(name) {
            let i = choose|i: int| 0 <= i < left.len() && left[i] == name;
            if i < t.len() {
                assert(t[i] == name);
            }
        }
    }
}

/// The controlling owner is the first one that says it controls.
pub proof fn law_first_controller(os: Seq<OwnerReference>)
    ensures
        0 <= controller_at(os) <= os.len(),
        controller_at(os) < os.len() ==> os[controller_at(os)].controller == Some(true),
        forall|j: int|
            0 <= j < controller_at(os) ==> (#[trigger] os[j]).controller != Some(true),
    decreases os.len(),
{
    if os.len() > 0 && os[0].controller != Some(true) {
        let t = os.drop_first();
        law_first_controller(t);
        assert forall|j: int| 0 <= j < controller_at(os) implies (#[trigger] os[j]).controller
            != Some(true) by {
            if j > 0 {
                assert(t[j - 1].controller != Some(true));
            }
        }
    }
}

/// A bare object has a name and a namespace and nothing else.
pub proof fn law_bare_objects(m: ObjectMeta, name: Seq<char>, namespace: Seq<char>)
    requires
        m.bare(name, namespace),
    ensures
        m.name@ == name,
        m.namespace@ == namespace,
        m.labels@.len() == 0 && m.annotations@.len() == 0,
        m.finalizers@.len() == 0 && m.owner_references@.len() == 0,
        m.generation is None && m.deletion_timestamp is None,
{
}

/// Removing a finalizer leaves the others, in their order.
pub proof fn law_other_finalizers_stay(a: Seq<Seq<char>>, x: Seq<char>, b: Seq<Seq<char>>, name: Seq<char>)
    requires
        x != name,
    ensures
        (a + seq![x] + b).filter(|f: Seq<char>| f != name) == a.filter(|f: Seq<char>| f != name)
            + seq![x] + b.filter(|f: Seq<char>| f != name),
{
    let p = |f: Seq<char>| f != name;
    Seq::filter_distributes_over_add(a + seq![x], b, p);
    Seq::filter_distributes_over_add(a, seq![x], p);
    reveal_with_fuel(Seq::filter, 2);
    assert(seq![x].drop_last() =~= Seq::<Seq<char>>::empty());
    assert(seq![x].filter(p) =~= seq![x]);
}

} // verus!
