//! The resources that a reconciler owns, and how two such sets differ.
use vstd::prelude::*;
use crate::keyed::{Key, KeyedMap};
use crate::ordmap::{keys_of, lemma_lookup_index, lookup, sorted, Linear};
use crate::text;
use crate::text::lex_lt;
use crate::types::opt_text;

verus! {

/// A resource of a cluster. Without a namespace it belongs to the cluster as
/// a whole.
#[derive(Debug, PartialEq, Eq, PartialOrd, Ord, Hash)]
pub struct ResourceRef {
    pub group: String,
    pub version: String,
    pub kind: String,
    pub namespace: Option<String>,
    pub name: String,
}

/// What a [`ResourceRef`] holds.
#[verifier::ext_equal]
pub struct RefV {
    pub group: Seq<char>,
    pub version: Seq<char>,
    pub kind: Seq<char>,
    pub namespace: Option<Seq<char>>,
    pub name: Seq<char>,
}

impl View for ResourceRef {
    type V = RefV;

    open spec fn view(&self) -> RefV {
        RefV {
            group: self.group@,
            version: self.version@,
            kind: self.kind@,
            namespace: opt_text(self.namespace),
            name: self.name@,
        }
    }
}

/// Nothing comes before something.
pub open spec fn opt_before(a: Option<Seq<char>>, b: Option<Seq<char>>) -> bool {
    match (a, b) {
        (None, Some(_)) => true,
        (Some(x), Some(y)) => lex_lt(x, y),
        _ => false,
    }
}

/// The order of resources: by group, version, kind, namespace and name.
#[verifier::opaque]
pub open spec fn ref_before(a: RefV, b: RefV) -> bool {
    if a.group != b.group {
        lex_lt(a.group, b.group)
    } else if a.version != b.version {
        lex_lt(a.version, b.version)
    } else if a.kind != b.kind {
        lex_lt(a.kind, b.kind)
    } else if a.namespace != b.namespace {
        opt_before(a.namespace, b.namespace)
    } else {
        lex_lt(a.name, b.name)
    }
}

proof fn lemma_opt_transitive(a: Option<Seq<char>>, b: Option<Seq<char>>, c: Option<Seq<char>>)
    requires
        opt_before(a, b),
        opt_before(b, c),
    ensures
        opt_before(a, c),
        a != c,
{
    match (a, b, c) {
        (Some(x), Some(y), Some(z)) => {
            text::lemma_lex_transitive(x, y, z);
            text::lemma_lex_irreflexive(x);
        },
        _ => {},
    }
}

proof fn lemma_strict(a: Seq<char>, b: Seq<char>, c: Seq<char>)
    requires
        lex_lt(a, b),
        lex_lt(b, c),
    ensures
        lex_lt(a, c),
        a != c,
{
    text::lemma_lex_transitive(a, b, c);
    text::lemma_lex_irreflexive(a);
}

impl Linear for RefV {
    open spec fn precedes(self, other: Self) -> bool {
        ref_before(self, other)
    }

    proof fn irreflexive(a: Self) {
        reveal(ref_before);
        text::lemma_lex_irreflexive(a.name);
    }

    proof fn transitive(a: Self, b: Self, c: Self) {
        reveal(ref_before);
        if a.group != b.group {
            if b.group != c.group {
                lemma_strict(a.group, b.group, c.group);
            }
        } else if b.group != c.group {
        } else if a.version != b.version {
            if b.version != c.version {
                lemma_strict(a.version, b.version, c.version);
            }
        } else if b.version != c.version {
        } else if a.kind != b.kind {
            if b.kind != c.kind {
                lemma_strict(a.kind, b.kind, c.kind);
            }
        } else if b.kind != c.kind {
        } else if a.namespace != b.namespace {
            if b.namespace != c.namespace {
                lemma_opt_transitive(a.namespace, b.namespace, c.namespace);
            }
        } else if b.namespace != c.namespace {
        } else {
            lemma_strict(a.name, b.name, c.name);
        }
    }

    proof fn total(a: Self, b: Self) {
        reveal(ref_before);
        if a.group != b.group {
            text::lemma_lex_total(a.group, b.group);
        } else if a.version != b.version {
            text::lemma_lex_total(a.version, b.version);
        } else if a.kind != b.kind {
            text::lemma_lex_total(a.kind, b.kind);
        } else if a.namespace != b.namespace {
            match (a.namespace, b.namespace) {
                (Some(x), Some(y)) => text::lemma_lex_total(x, y),
                _ => {},
            }
        } else {
            text::lemma_lex_total(a.name, b.name);
        }
    }
}

fn same_opt(a: &Option<String>, b: &Option<String>) -> (r: bool)
    ensures
        r == (opt_text(*a) == opt_text(*b)),
{
    match (a, b) {
        (Some(x), Some(y)) => text::same(x.as_str(), y.as_str()),
        (None, None) => true,
        _ => false,
    }
}

impl Key for ResourceRef {
    type O = RefV;

    open spec fn rank(&self) -> RefV {
        self@
    }

    fn is_before(&self, other: &Self) -> (r: bool) {
        let ghost a = self@;
        let ghost b = other@;
        proof {
            reveal(ref_before);
            assert(a.group == self.group@ && b.group == other.group@);
            assert(a.version == self.version@ && b.version == other.version@);
            assert(a.kind == self.kind@ && b.kind == other.kind@);
            assert(a.namespace == opt_text(self.namespace) && b.namespace == opt_text(other.namespace));
            assert(a.name == self.name@ && b.name == other.name@);
            assert(self.rank().precedes(other.rank()) == ref_before(a, b));
        }
        if !text::same(self.group.as_str(), other.group.as_str()) {
            text::before(self.group.as_str(), other.group.as_str())
        } else if !text::same(self.version.as_str(), other.version.as_str()) {
            text::before(self.version.as_str(), other.version.as_str())
        } else if !text::same(self.kind.as_str(), other.kind.as_str()) {
            text::before(self.kind.as_str(), other.kind.as_str())
        } else if !same_opt(&self.namespace, &other.namespace) {
            match (&self.namespace, &other.namespace) {
                (None, Some(_)) => true,
                (Some(x), Some(y)) => text::before(x.as_str(), y.as_str()),
                _ => false,
            }
        } else {
            text::before(self.name.as_str(), other.name.as_str())
        }
    }

    fn is_same(&self, other: &Self) -> (r: bool) {
        text::same(self.group.as_str(), other.group.as_str()) && text::same(
            self.version.as_str(),
            other.version.as_str(),
        ) && text::same(self.kind.as_str(), other.kind.as_str()) && same_opt(
            &self.namespace,
            &other.namespace,
        ) && text::same(self.name.as_str(), other.name.as_str())
    }

    fn copy_key(&self) -> (r: Self) {
        ResourceRef {
            group: self.group.clone(),
            version: self.version.clone(),
            kind: self.kind.clone(),
            namespace: match &self.namespace {
                Some(n) => Some(n.clone()),
                None => None,
            },
            name: self.name.clone(),
        }
    }
}

impl Clone for ResourceRef {
    fn clone(&self) -> (r: Self)
        ensures
            r@ == self@,
    {
        self.copy_key()
    }
}

/// `<group>/<version>/<kind>`, without the group where it is empty.
pub open spec fn api_kind_text(r: RefV) -> Seq<char> {
    if r.group.len() == 0 {
        r.version + "/"@ + r.kind
    } else {
        r.group + "/"@ + r.version + "/"@ + r.kind
    }
}

/// `<api kind>/<namespace>/<name>`, with `_cluster` for a resource of the
/// cluster as a whole.
pub open spec fn ref_text(r: RefV) -> Seq<char> {
    api_kind_text(r) + "/"@ + match r.namespace {
        Some(n) => n,
        None => "_cluster"@,
    } + "/"@ + r.name
}

impl ResourceRef {
    /// A resource in a namespace.
    pub fn namespaced(group: &str, version: &str, kind: &str, namespace: &str, name: &str) -> (r: Self)
        ensures
            r@ == (RefV {
                group: group@,
                version: version@,
                kind: kind@,
                namespace: Some(namespace@),
                name: name@,
            }),
    {
        ResourceRef {
            group: group.to_owned(),
            version: version.to_owned(),
            kind: kind.to_owned(),
            namespace: Some(namespace.to_owned()),
            name: name.to_owned(),
        }
    }

    /// A resource of the cluster as a whole.
    pub fn cluster_scoped(group: &str, version: &str, kind: &str, name: &str) -> (r: Self)
        ensures
            r@ == (RefV {
                group: group@,
                version: version@,
                kind: kind@,
                namespace: None,
                name: name@,
            }),
    {
        ResourceRef {
            group: group.to_owned(),
            version: version.to_owned(),
            kind: kind.to_owned(),
            namespace: None,
            name: name.to_owned(),
        }
    }

    /// Whether the resource belongs to the cluster as a whole.
    pub fn is_cluster_scoped(&self) -> (r: bool)
        ensures
            r == (self@.namespace is None),
    {
        self.namespace.is_none()
    }

    /// `<group>/<version>/<kind>`, without the group where it is empty.
    pub fn api_kind(&self) -> (r: String)
        ensures
            r@ == api_kind_text(self@),
    {
        let tail = text::join3(self.version.as_str(), "/", self.kind.as_str());
        if text::chars_of(self.group.as_str()).len() == 0 {
            tail
        } else {
            let r = text::join3(self.group.as_str(), "/", tail.as_str());
            proof {
                assert(r@ =~= api_kind_text(self@));
            }
            r
        }
    }

    /// `<api kind>/<namespace>/<name>`; see [`ref_text`].
    pub fn text(&self) -> (r: String)
        ensures
            r@ == ref_text(self@),
    {
        let ns = match &self.namespace {
            Some(n) => n.as_str(),
            None => "_cluster",
        };
        let a = text::join3(self.api_kind().as_str(), "/", ns);
        text::join3(a.as_str(), "/", self.name.as_str())
    }
}

/// Resources by what they hold.
pub open spec fn refs_view(rs: Seq<ResourceRef>) -> Seq<RefV> {
    Seq::new(rs.len(), |i: int| rs[i]@)
}

/// A set of resources, kept in order.
#[derive(Clone, Debug, PartialEq, Eq)]
pub struct Inventory {
    entries: KeyedMap<ResourceRef, ()>,
}

/// The resources of `a` that are not in `b`, in their order.
pub open spec fn missing_from(a: Seq<RefV>, b: Seq<RefV>) -> Seq<RefV> {
    a.filter(|r: RefV| !b.contains(r))
}

/// The resources increase strictly.
pub open spec fn in_order(rs: Seq<RefV>) -> bool {
    forall|i: int, j: int| #![trigger rs[i], rs[j]] 0 <= i < j < rs.len() ==> ref_before(rs[i], rs[j])
}

impl Default for Inventory {
    fn default() -> (r: Self)
        ensures
            r.wf(),
            r.refs() == Seq::<RefV>::empty(),
    {
        Inventory::new()
    }
}

impl Inventory {
    /// The resources, in order.
    pub closed spec fn refs(&self) -> Seq<RefV> {
        keys_of(self.entries.pairs())
    }

    /// The resources are in order, each once.
    pub open spec fn wf(&self) -> bool {
        in_order(self.refs())
    }

    /// No resources.
    pub fn new() -> (r: Self)
        ensures
            r.wf(),
            r.refs() == Seq::<RefV>::empty(),
    {
        let r = Inventory { entries: KeyedMap::new() };
        proof {
            assert(r.refs() =~= Seq::<RefV>::empty());
        }
        r
    }

    /// Add a resource; true where it was not there yet.
    pub fn insert(&mut self, r: ResourceRef) -> (fresh: bool)
        requires
            old(self).wf(),
        ensures
            final(self).wf(),
            fresh == !old(self).refs().contains(r@),
            forall|x: RefV| #[trigger] final(self).refs().contains(x) <==> old(self).refs().contains(x) || x == r@,
    {
        let fresh = !self.contains(&r);
        let ghost k = r@;
        proof {
            lemma_wf_sorted(self.entries.pairs());
            crate::ordmap::lemma_put_sorted(self.entries.pairs(), k, ());
        }
        let ghost before = self.entries.pairs();
        self.entries.insert(r, ());
        proof {
            let after = self.entries.pairs();
            lemma_sorted_wf(after);
            assert forall|x: RefV| #[trigger] self.refs().contains(x) <==> keys_of(before).contains(x) || x
                == k by {
                crate::ordmap::lemma_put_lookup(before, k, (), x);
                lemma_contains_lookup(before, x);
                lemma_contains_lookup(after, x);
            }
        }
        fresh
    }

    /// Whether a resource is there.
    pub fn contains(&self, r: &ResourceRef) -> (b: bool)
        ensures
            b == self.refs().contains(r@),
    {
        proof {
            lemma_contains_lookup(self.entries.pairs(), r@);
        }
        self.entries.contains_key(r)
    }

    pub fn len(&self) -> (r: usize)
        ensures
            r == self.refs().len(),
    {
        self.entries.len()
    }

    pub fn is_empty(&self) -> (r: bool)
        ensures
            r == (self.refs().len() == 0),
    {
        self.entries.is_empty()
    }

    /// These resources: in order, each once.
    pub fn from_iter(rs: &Vec<ResourceRef>) -> (r: Self)
        ensures
            r.wf(),
            forall|x: RefV| #[trigger] r.refs().contains(x) <==> refs_view(rs@).contains(x),
    {
        let mut out = Inventory::new();
        let ghost all = refs_view(rs@);
        let mut i: usize = 0;
        while i < rs.len()
            invariant
                i <= rs@.len(),
                all == refs_view(rs@),
                out.wf(),
                forall|x: RefV| #[trigger] out.refs().contains(x) <==> all.take(i as int).contains(x),
            decreases rs.len() - i,
        {
            let ghost before = out.refs();
            let _ = out.insert(rs[i].clone());
            proof {
                let a = all.take(i as int);
                let b = all.take(i + 1);
                assert(b =~= a.push(all[i as int]));
                assert forall|x: RefV| #[trigger] out.refs().contains(x) <==> b.contains(x) by {
                    assert(before.contains(x) <==> a.contains(x));
                    if a.contains(x) {
                        let j = choose|j: int| 0 <= j < a.len() && a[j] == x;
                        assert(b[j] == x);
                    }
                    if x == all[i as int] {
                        assert(b[i as int] == x);
                    }
                    if b.contains(x) && x != all[i as int] {
                        let j = choose|j: int| 0 <= j < b.len() && b[j] == x;
                        assert(a[j] == x);
                    }
                }
            }
            i += 1;
        }
        proof {
            assert(all.take(all.len() as int) =~= all);
        }
        out
    }

    /// The resources, in order.
    pub fn iter(&self) -> (r: Vec<ResourceRef>)
        ensures
            refs_view(r@) == self.refs(),
    {
        let mut out: Vec<ResourceRef> = Vec::new();
        let mut i: usize = 0;
        while i < self.entries.entries.len()
            invariant
                i <= self.entries.entries@.len(),
                out@.len() == i,
                forall|j: int| 0 <= j < i ==> (#[trigger] out@[j])@ == self.entries.entries@[j].0@,
            decreases self.entries.entries.len() - i,
        {
            out.push(self.entries.entries[i].0.clone());
            i += 1;
        }
        proof {
            assert(refs_view(out@) =~= self.refs());
        }
        out
    }

    /// The resources, in order.
    pub fn into_inner(self) -> (r: Vec<ResourceRef>)
        ensures
            refs_view(r@) == self.refs(),
    {
        self.iter()
    }

    /// The resources that are not in `other`, in order.
    fn without(&self, other: &Inventory) -> (r: Vec<ResourceRef>)
        ensures
            refs_view(r@) == missing_from(self.refs(), other.refs()),
    {
        let ghost all = self.refs();
        let mut out: Vec<ResourceRef> = Vec::new();
        let mut i: usize = 0;
        proof {
            reveal(Seq::filter);
            assert(all.take(0) =~= Seq::empty());
            assert(refs_view(out@) =~= missing_from(all.take(0), other.refs()));
        }
        while i < self.entries.entries.len()
            invariant
                i <= self.entries.entries@.len(),
                all == self.refs(),
                refs_view(out@) == missing_from(all.take(i as int), other.refs()),
            decreases self.entries.entries.len() - i,
        {
            let e = &self.entries.entries[i].0;
            proof {
                reveal(Seq::filter);
                assert(all.take(i + 1).drop_last() =~= all.take(i as int));
                assert(all.take(i + 1).last() == e@);
            }
            if !other.contains(e) {
                let ghost before = refs_view(out@);
                let c = e.clone();
                out.push(c);
                proof {
                    assert(refs_view(out@) =~= before.push(c@));
                }
            }
            i += 1;
        }
        proof {
            assert(all.take(all.len() as int) =~= all);
        }
        out
    }

    /// What leads from this inventory to another: the resources that are
    /// only there, and those that are only here.
    pub fn diff_to(&self, other: &Inventory) -> (r: InventoryDiff)
        ensures
            refs_view(r.added@) == missing_from(other.refs(), self.refs()),
            refs_view(r.removed@) == missing_from(self.refs(), other.refs()),
    {
        InventoryDiff { added: other.without(self), removed: self.without(other) }
    }
}

proof fn lemma_wf_sorted(s: Seq<(RefV, ())>)
    requires
        in_order(keys_of(s)),
    ensures
        sorted(s),
{
    assert forall|i: int, j: int| #![trigger s[i], s[j]] 0 <= i < j < s.len() implies s[i].0.precedes(
        s[j].0,
    ) by {
        assert(ref_before(keys_of(s)[i], keys_of(s)[j]));
    }
}

proof fn lemma_sorted_wf(s: Seq<(RefV, ())>)
    requires
        sorted(s),
    ensures
        in_order(keys_of(s)),
{
    let ks = keys_of(s);
    assert forall|i: int, j: int| #![trigger ks[i], ks[j]] 0 <= i < j < ks.len() implies ref_before(
        ks[i],
        ks[j],
    ) by {
        assert(s[i].0.precedes(s[j].0));
    }
}

proof fn lemma_contains_lookup(s: Seq<(RefV, ())>, k: RefV)
    ensures
        keys_of(s).contains(k) <==> lookup(s, k) is Some,
{
    if lookup(s, k) is Some {
        let i = lemma_lookup_index(s, k);
        assert(keys_of(s)[i] == k);
    }
    if keys_of(s).contains(k) && lookup(s, k) is None {
        let i = choose|i: int| 0 <= i < s.len() && keys_of(s)[i] == k;
        lemma_found(s, i);
    }
}

proof fn lemma_found(s: Seq<(RefV, ())>, i: int)
    requires
        0 <= i < s.len(),
    ensures
        lookup(s, s[i].0) is Some,
    decreases s.len(),
{
    if i > 0 && s[0].0 != s[i].0 {
        assert(s.drop_first()[i - 1] == s[i]);
        lemma_found(s.drop_first(), i - 1);
    }
}

/// How two inventories differ.
#[derive(Clone, Debug, PartialEq, Eq)]
pub struct InventoryDiff {
    pub added: Vec<ResourceRef>,
    pub removed: Vec<ResourceRef>,
}

impl Default for InventoryDiff {
    fn default() -> (r: Self)
        ensures
            r.added@ == Seq::<ResourceRef>::empty(),
            r.removed@ == Seq::<ResourceRef>::empty(),
    {
        InventoryDiff { added: Vec::new(), removed: Vec::new() }
    }
}

impl InventoryDiff {
    /// Whether the inventories were the same.
    pub fn is_empty(&self) -> (r: bool)
        ensures
            r == (self.added@.len() == 0 && self.removed@.len() == 0),
    {
        self.added.len() == 0 && self.removed.len() == 0
    }

    /// How many resources changed.
    pub fn change_count(&self) -> (r: usize)
        requires
            self.added@.len() + self.removed@.len() <= usize::MAX,
        ensures
            r == self.added@.len() + self.removed@.len(),
    {
        self.added.len() + self.removed.len()
    }
}

proof fn lemma_missing_member(a: Seq<RefV>, b: Seq<RefV>, x: RefV)
    ensures
        missing_from(a, b).contains(x) <==> a.contains(x) && !b.contains(x),
    decreases a.len(),
{
    reveal(Seq::filter);
    let m = missing_from(a, b);
    if a.len() > 0 {
        let t = a.drop_last();
        lemma_missing_member(t, b, x);
        let mt = missing_from(t, b);
        if t.contains(x) {
            let i = choose|i: int| 0 <= i < t.len() && t[i] == x;
            assert(a[i] == x);
        }
        if a.contains(x) && x != a.last() {
            let i = choose|i: int| 0 <= i < a.len() && a[i] == x;
            assert(t[i] == x);
        }
        if a.last() == x {
            assert(a[a.len() - 1] == x);
        }
        if mt.contains(x) {
            let i = choose|i: int| 0 <= i < mt.len() && mt[i] == x;
            assert(m[i] == x);
        }
        if !b.contains(a.last()) {
            assert(m == mt.push(a.last()));
            if x == a.last() {
                assert(m[m.len() - 1] == x);
            }
            if m.contains(x) && x != a.last() {
                let i = choose|i: int| 0 <= i < m.len() && m[i] == x;
                assert(mt[i] == x);
            }
        }
    } else {
        assert(m.len() == 0);
    }
}

/// Adding what a diff adds and dropping what it removes leads from the one
/// inventory to the other.
pub proof fn law_diff_leads_over(a: Seq<RefV>, b: Seq<RefV>, x: RefV)
    ensures
        b.contains(x) <==> (a.contains(x) && !missing_from(a, b).contains(x)) || missing_from(
            b,
            a,
        ).contains(x),
{
    lemma_missing_member(a, b, x);
    lemma_missing_member(b, a, x);
}

/// No resource is both added and removed.
pub proof fn law_diff_is_disjoint(a: Seq<RefV>, b: Seq<RefV>, x: RefV)
    ensures
        !(missing_from(a, b).contains(x) && missing_from(b, a).contains(x)),
{
    lemma_missing_member(a, b, x);
    lemma_missing_member(b, a, x);
}

/// Two inventories with the same resources are the same list.
pub proof fn law_inventory_is_canonical(a: Seq<RefV>, b: Seq<RefV>)
    requires
        in_order(a),
        in_order(b),
        forall|x: RefV| a.contains(x) <==> b.contains(x),
    ensures
        a == b,
{
    let p = a.map_values(|r: RefV| (r, ()));
    let q = b.map_values(|r: RefV| (r, ()));
    assert(keys_of(p) =~= a);
    assert(keys_of(q) =~= b);
    lemma_wf_sorted(p);
    lemma_wf_sorted(q);
    assert forall|k: RefV| #[trigger] lookup(p, k) == lookup(q, k) by {
        lemma_contains_lookup(p, k);
        lemma_contains_lookup(q, k);
        assert(a.contains(k) <==> b.contains(k));
        if lookup(p, k) is Some {
            assert(lookup(p, k)->Some_0 == ());
            assert(lookup(q, k)->Some_0 == ());
        }
    }
    crate::ordmap::lemma_canonical(p, q);
}

/// The diff is empty exactly when the two inventories are the same.
pub proof fn law_diff_empty_iff_same(a: Seq<RefV>, b: Seq<RefV>)
    requires
        in_order(a),
        in_order(b),
    ensures
        missing_from(a, b).len() == 0 && missing_from(b, a).len() == 0 <==> a == b,
{
    reveal(Seq::filter);
    if missing_from(a, b).len() == 0 && missing_from(b, a).len() == 0 {
        assert forall|x: RefV| a.contains(x) <==> b.contains(x) by {
            lemma_missing_member(a, b, x);
            lemma_missing_member(b, a, x);
        }
        law_inventory_is_canonical(a, b);
    }
    if a == b && missing_from(a, b).len() > 0 {
        let x = missing_from(a, b)[0];
        assert(missing_from(a, b).contains(x));
        lemma_missing_member(a, b, x);
    }
}

/// References are ordered by group, then version, kind, namespace and name:
/// the first of these that differs decides. What has no namespace comes
/// before what has one.
pub proof fn law_first_field_decides(a: RefV, b: RefV)
    ensures
        a.group != b.group ==> (ref_before(a, b) <==> lex_lt(a.group, b.group)),
        a.group == b.group && a.version != b.version ==> (ref_before(a, b) <==> lex_lt(
            a.version,
            b.version,
        )),
        a.group == b.group && a.version == b.version && a.kind != b.kind ==> (ref_before(a, b)
            <==> lex_lt(a.kind, b.kind)),
        a.group == b.group && a.version == b.version && a.kind == b.kind && a.namespace is None
            && b.namespace is Some ==> ref_before(a, b) && !ref_before(b, a),
        a.group == b.group && a.version == b.version && a.kind == b.kind && a.namespace is Some
            && b.namespace is Some && a.namespace != b.namespace ==> (ref_before(a, b) <==> lex_lt(
            a.namespace->Some_0,
            b.namespace->Some_0,
        )),
        a.group == b.group && a.version == b.version && a.kind == b.kind && a.namespace
            == b.namespace ==> (ref_before(a, b) <==> lex_lt(a.name, b.name)),
{
    reveal(ref_before);
}

/// A reference in words: the group where there is one, version and kind, the
/// namespace or a word for none, and the name, with slashes between.
pub proof fn law_references_in_words(r: RefV)
    ensures
        r.group.len() == 0 ==> api_kind_text(r) == r.version + "/"@ + r.kind,
        r.group.len() > 0 ==> api_kind_text(r) == r.group + "/"@ + r.version + "/"@ + r.kind,
        r.namespace is None ==> ref_text(r) == api_kind_text(r) + "/"@ + "_cluster"@ + "/"@ + r.name,
        r.namespace matches Some(n) ==> ref_text(r) == api_kind_text(r) + "/"@ + n + "/"@ + r.name,
{
}

} // verus!
