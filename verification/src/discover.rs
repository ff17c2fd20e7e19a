//! Resources that are there, whether or not anyone declared them.
use vstd::prelude::*;
use crate::json;
use crate::json::{Json, JsonV};
use crate::ordmap::{collect, lookup};
use crate::text;
use crate::text::{lex_lt, texts};

verus! {

/// Why nothing could be found out.
#[derive(Debug)]
pub enum DiscoverError {
    List(String),
    Encode(String),
}

impl DiscoverError {
    /// What the error says.
    pub open spec fn said(&self) -> Seq<char> {
        match self {
            DiscoverError::List(m) => "list: "@ + m@,
            DiscoverError::Encode(m) => "encode: "@ + m@,
        }
    }

    /// The error in words.
    pub fn message(&self) -> (r: String)
        ensures
            r@ == self.said(),
    {
        match self {
            DiscoverError::List(m) => text::join2("list: ", m.as_str()),
            DiscoverError::Encode(m) => text::join2("encode: ", m.as_str()),
        }
    }
}

/// A resource that is there.
#[derive(Debug)]
pub struct DiscoveredResource {
    pub kind: String,
    pub address: String,
    pub current: Json,
}

/// What a [`DiscoveredResource`] holds.
#[verifier::ext_equal]
pub struct FoundV {
    pub kind: Seq<char>,
    pub address: Seq<char>,
    pub current: JsonV,
}

impl View for DiscoveredResource {
    type V = FoundV;

    open spec fn view(&self) -> FoundV {
        FoundV { kind: self.kind@, address: self.address@, current: self.current@ }
    }
}

impl Clone for DiscoveredResource {
    fn clone(&self) -> (r: Self)
        ensures
            r@ == self@,
    {
        DiscoveredResource {
            kind: self.kind.clone(),
            address: self.address.clone(),
            current: self.current.clone(),
        }
    }
}

impl PartialEq for DiscoveredResource {
    fn eq(&self, other: &Self) -> (r: bool) {
        text::same(self.kind.as_str(), other.kind.as_str()) && text::same(
            self.address.as_str(),
            other.address.as_str(),
        ) && self.current.same_as(&other.current)
    }
}

impl vstd::std_specs::cmp::PartialEqSpecImpl for DiscoveredResource {
    open spec fn obeys_eq_spec() -> bool {
        true
    }

    open spec fn eq_spec(&self, other: &Self) -> bool {
        self.kind@ == other.kind@ && self.address@ == other.address@ && json::json_same(
            self.current@,
            other.current@,
        )
    }
}

pub open spec fn found_view(rs: Seq<DiscoveredResource>) -> Seq<FoundV> {
    Seq::new(rs.len(), |i: int| rs[i]@)
}

/// The resources that are there, by whether they are declared.
#[derive(Clone, Debug)]
pub struct DiscoveryClassification {
    pub managed: Vec<DiscoveredResource>,
    pub undeclared: Vec<DiscoveredResource>,
}

impl Default for DiscoveryClassification {
    fn default() -> (r: Self)
        ensures
            r.managed@ == Seq::<DiscoveredResource>::empty(),
            r.undeclared@ == Seq::<DiscoveredResource>::empty(),
    {
        DiscoveryClassification { managed: Vec::new(), undeclared: Vec::new() }
    }
}

impl DiscoveryClassification {
    pub fn total(&self) -> (r: usize)
        requires
            self.managed@.len() + self.undeclared@.len() <= usize::MAX,
        ensures
            r == self.managed@.len() + self.undeclared@.len(),
    {
        self.managed.len() + self.undeclared.len()
    }

    pub fn is_empty(&self) -> (r: bool)
        ensures
            r == (self.managed@.len() + self.undeclared@.len() == 0),
    {
        self.managed.len() == 0 && self.undeclared.len() == 0
    }
}

/// A resource set among others that are in the order of their addresses:
/// behind those whose address is not above its own.
pub open spec fn placed(rs: Seq<FoundV>, r: FoundV) -> Seq<FoundV>
    decreases rs.len(),
{
    if rs.len() == 0 {
        seq![r]
    } else if lex_lt(r.address, rs.last().address) {
        placed(rs.drop_last(), r).push(rs.last())
    } else {
        rs.push(r)
    }
}

/// Resources in the order of their addresses; those with one address stay in
/// the order they had.
pub open spec fn by_address(rs: Seq<FoundV>) -> Seq<FoundV>
    decreases rs.len(),
{
    if rs.len() == 0 {
        Seq::empty()
    } else {
        placed(by_address(rs.drop_last()), rs.last())
    }
}

/// The resources whose address is declared, or not, in their order.
pub open spec fn chosen(rs: Seq<FoundV>, declared: Seq<Seq<char>>, yes: bool) -> Seq<FoundV>
    decreases rs.len(),
{
    if rs.len() == 0 {
        Seq::empty()
    } else {
        let rest = chosen(rs.drop_last(), declared, yes);
        if declared.contains(rs.last().address) == yes {
            rest.push(rs.last())
        } else {
            rest
        }
    }
}

/// Set a resource among others that are in order; see [`placed`].
fn place(rs: &mut Vec<DiscoveredResource>, r: DiscoveredResource)
    ensures
        found_view(final(rs)@) == placed(found_view(old(rs)@), r@),
{
    let ghost all = found_view(rs@);
    let mut i: usize = rs.len();
    proof {
        assert(all.take(i as int) =~= all);
        assert(placed(all.take(i as int), r@) + all.skip(i as int) =~= placed(all, r@));
    }
    while i > 0 && text::before(r.address.as_str(), rs[i - 1].address.as_str())
        invariant
            i <= rs@.len(),
            rs@ == old(rs)@,
            all == found_view(rs@),
            placed(all.take(i as int), r@) + all.skip(i as int) == placed(all, r@),
        decreases i,
    {
        proof {
            assert(all.take(i as int).last() == rs@[i - 1]@);
            assert(all.take(i as int).drop_last() =~= all.take(i - 1));
            assert(placed(all.take(i - 1), r@).push(all[i - 1]) + all.skip(i as int) =~= placed(
                all.take(i - 1),
                r@,
            ) + all.skip(i - 1));
        }
        i -= 1;
    }
    proof {
        let front = all.take(i as int);
        assert(i > 0 ==> front.last() == rs@[i - 1]@);
        assert(placed(front, r@) =~= front.push(r@));
        assert(front.push(r@) + all.skip(i as int) =~= all.insert(i as int, r@));
    }
    let ghost v = r@;
    rs.insert(i, r);
    proof {
        assert(found_view(rs@) =~= all.insert(i as int, v));
    }
}

/// The resources whose address is declared, or not, in the order of their
/// addresses.
fn pick(discovered: &Vec<DiscoveredResource>, declared: &Vec<String>, yes: bool) -> (r: Vec<
    DiscoveredResource,
>)
    ensures
        found_view(r@) == by_address(chosen(found_view(discovered@), texts(declared@), yes)),
{
    let ghost all = found_view(discovered@);
    let ghost ds = texts(declared@);
    let mut out: Vec<DiscoveredResource> = Vec::new();
    let mut i: usize = 0;
    proof {
        assert(all.take(0) =~= Seq::empty());
        assert(found_view(out@) =~= by_address(chosen(all.take(0), ds, yes)));
    }
    while i < discovered.len()
        invariant
            i <= discovered@.len(),
            all == found_view(discovered@),
            ds == texts(declared@),
            found_view(out@) == by_address(chosen(all.take(i as int), ds, yes)),
        decreases discovered.len() - i,
    {
        let d = &discovered[i];
        proof {
            assert(all.take(i + 1).drop_last() =~= all.take(i as int));
            assert(all.take(i + 1).last() == d@);
        }
        if text::contains_text(declared, d.address.as_str()) == yes {
            let c = d.clone();
            proof {
                let before = chosen(all.take(i as int), ds, yes);
                assert(before.push(c@).drop_last() =~= before);
                assert(before.push(c@).last() == c@);
            }
            place(&mut out, c);
        }
        i += 1;
    }
    proof {
        assert(all.take(all.len() as int) =~= all);
    }
    out
}

/// Tell the resources that are declared from those that are not.
pub fn classify_discovered(discovered: &Vec<DiscoveredResource>, declared: &Vec<String>) -> (r:
    DiscoveryClassification)
    ensures
        found_view(r.managed@) == by_address(chosen(found_view(discovered@), texts(declared@), true)),
        found_view(r.undeclared@) == by_address(
            chosen(found_view(discovered@), texts(declared@), false),
        ),
        r.managed@.len() + r.undeclared@.len() == discovered@.len(),
{
    let managed = pick(discovered, declared, true);
    let undeclared = pick(discovered, declared, false);
    proof {
        law_classification_partitions(found_view(discovered@), texts(declared@));
        assert(found_view(managed@).len() == managed@.len());
        assert(found_view(undeclared@).len() == undeclared@.len());
    }
    DiscoveryClassification { managed, undeclared }
}

/// The resources that are not declared.
pub fn find_undeclared(discovered: &Vec<DiscoveredResource>, declared: &Vec<String>) -> (r: Vec<
    DiscoveredResource,
>)
    ensures
        found_view(r@) == by_address(chosen(found_view(discovered@), texts(declared@), false)),
{
    pick(discovered, declared, false)
}

/// Resources as entries from address to contents.
pub open spec fn adoption_entries(rs: Seq<FoundV>) -> Seq<(Seq<char>, JsonV)> {
    rs.map_values(|r: FoundV| (r.address, r.current))
}

/// A configuration that takes the resources over as they are: contents by
/// address; of two with one address the later one stays.
pub fn emit_adoption_config(resources: &Vec<DiscoveredResource>) -> (r: Json)
    ensures
        r@ == JsonV::Object(collect(adoption_entries(found_view(resources@)))),
{
    let mut members: Vec<(String, Json)> = Vec::new();
    let mut i: usize = 0;
    while i < resources.len()
        invariant
            i <= resources@.len(),
            members@.len() == i,
            forall|j: int|
                0 <= j < i ==> (#[trigger] members@[j]).0@ == resources@[j].address@ && members@[j].1@
                    == resources@[j].current@,
        decreases resources.len() - i,
    {
        members.push((resources[i].address.clone(), resources[i].current.clone()));
        i += 1;
    }
    proof {
        assert(json::members_view(members@) =~= adoption_entries(found_view(resources@)));
    }
    Json::object(members)
}

/// A source of resources.
pub trait Discoverable {
    /// What would be found.
    spec fn present(&self) -> Result<Seq<FoundV>, Seq<char>>;

    fn discover(&self) -> (r: Result<Vec<DiscoveredResource>, DiscoverError>)
        ensures
            match r {
                Ok(rs) => self.present() == Ok::<Seq<FoundV>, Seq<char>>(found_view(rs@)),
                Err(e) => self.present() == Err::<Seq<FoundV>, Seq<char>>(e.said()),
            },
    ;
}

/// A source that always finds the same resources.
#[derive(Debug)]
pub struct StaticDiscoverable {
    pub kind: String,
    pub resources: Vec<DiscoveredResource>,
}

impl StaticDiscoverable {
    pub fn new(kind: &str, resources: Vec<DiscoveredResource>) -> (r: Self)
        ensures
            r.kind@ == kind@,
            r.resources@ == resources@,
    {
        StaticDiscoverable { kind: kind.to_owned(), resources }
    }

    pub fn kind(&self) -> (r: &str)
        ensures
            r@ == self.kind@,
    {
        self.kind.as_str()
    }
}

impl Discoverable for StaticDiscoverable {
    open spec fn present(&self) -> Result<Seq<FoundV>, Seq<char>> {
        Ok(found_view(self.resources@))
    }

    fn discover(&self) -> (r: Result<Vec<DiscoveredResource>, DiscoverError>) {
        let mut out: Vec<DiscoveredResource> = Vec::new();
        let mut i: usize = 0;
        while i < self.resources.len()
            invariant
                i <= self.resources@.len(),
                out@.len() == i,
                forall|j: int| 0 <= j < i ==> (#[trigger] out@[j])@ == self.resources@[j]@,
            decreases self.resources.len() - i,
        {
            out.push(self.resources[i].clone());
            i += 1;
        }
        proof {
            assert(found_view(out@) =~= found_view(self.resources@));
        }
        Ok(out)
    }
}

// ── Laws ───────────────────────────────────────────────────────────

proof fn lemma_placed(rs: Seq<FoundV>, r: FoundV)
    ensures
        placed(rs, r).to_multiset() == rs.to_multiset().insert(r),
        placed(rs, r).len() == rs.len() + 1,
    decreases rs.len(),
{
    broadcast use vstd::seq_lib::group_to_multiset_ensures;

    if rs.len() == 0 {
        assert(rs =~= Seq::empty());
        assert(seq![r] =~= rs.push(r));
    } else if lex_lt(r.address, rs.last().address) {
        lemma_placed(rs.drop_last(), r);
        assert(rs.drop_last().push(rs.last()) =~= rs);
        assert(placed(rs, r).to_multiset() =~= rs.to_multiset().insert(r));
    }
}

/// The addresses never go down.
pub open spec fn ascending(rs: Seq<FoundV>) -> bool {
    forall|i: int, j: int|
        #![trigger rs[i], rs[j]]
        0 <= i < j < rs.len() ==> !lex_lt(rs[j].address, rs[i].address)
}

proof fn lemma_placed_ascending(rs: Seq<FoundV>, r: FoundV)
    requires
        ascending(rs),
    ensures
        ascending(placed(rs, r)),
        forall|k: int|
            #![trigger placed(rs, r)[k]]
            0 <= k < placed(rs, r).len() ==> placed(rs, r)[k] == r || rs.contains(placed(rs, r)[k]),
    decreases rs.len(),
{
    let p = placed(rs, r);
    if rs.len() > 0 {
        let t = rs.drop_last();
        let last = rs.last();
        assert(rs[rs.len() - 1] == last);
        assert forall|i: int, j: int| #![trigger t[i], t[j]] 0 <= i < j < t.len() implies !lex_lt(
            t[j].address,
            t[i].address,
        ) by {
            assert(t[i] == rs[i] && t[j] == rs[j]);
        }
        if lex_lt(r.address, last.address) {
            lemma_placed_ascending(t, r);
            let q = placed(t, r);
            assert forall|k: int| #![trigger p[k]] 0 <= k < p.len() implies p[k] == r || rs.contains(p[k]) by {
                if k < q.len() {
                    assert(p[k] == q[k]);
                    if q[k] != r {
                        let m = choose|m: int| 0 <= m < t.len() && t[m] == q[k];
                        assert(rs[m] == q[k]);
                    }
                } else {
                    assert(p[k] == rs[rs.len() - 1]);
                }
            }
            assert forall|i: int, j: int| #![trigger p[i], p[j]] 0 <= i < j < p.len() implies !lex_lt(
                p[j].address,
                p[i].address,
            ) by {
                if j < q.len() {
                    assert(p[i] == q[i] && p[j] == q[j]);
                } else {
                    assert(p[j] == last && p[i] == q[i]);
                    if q[i] == r {
                        text::lemma_lex_asymmetric(r.address, last.address);
                    } else {
                        let m = choose|m: int| 0 <= m < t.len() && t[m] == q[i];
                        assert(rs[m] == q[i]);
                    }
                }
            }
        } else {
            assert forall|k: int| #![trigger p[k]] 0 <= k < p.len() implies p[k] == r || rs.contains(p[k]) by {
                if k < rs.len() {
                    assert(p[k] == rs[k]);
                }
            }
            assert forall|i: int, j: int| #![trigger p[i], p[j]] 0 <= i < j < p.len() implies !lex_lt(
                p[j].address,
                p[i].address,
            ) by {
                if j < rs.len() {
                    assert(p[i] == rs[i] && p[j] == rs[j]);
                } else {
                    assert(p[j] == r && p[i] == rs[i]);
                    if lex_lt(r.address, rs[i].address) {
                        if i < rs.len() - 1 {
                            assert(!lex_lt(rs[rs.len() - 1].address, rs[i].address));
                            if rs[i].address != last.address {
                                text::lemma_lex_total(rs[i].address, last.address);
                                text::lemma_lex_transitive(r.address, rs[i].address, last.address);
                            }
                        }
                    }
                }
            }
        }
    }
}

/// Putting resources in order loses none and adds none, and the addresses
/// never go down.
pub proof fn law_ordering_keeps_all(rs: Seq<FoundV>)
    ensures
        by_address(rs).to_multiset() == rs.to_multiset(),
        by_address(rs).len() == rs.len(),
        ascending(by_address(rs)),
    decreases rs.len(),
{
    broadcast use vstd::seq_lib::group_to_multiset_ensures;

    if rs.len() > 0 {
        let t = rs.drop_last();
        law_ordering_keeps_all(t);
        lemma_placed(by_address(t), rs.last());
        lemma_placed_ascending(by_address(t), rs.last());
        assert(t.push(rs.last()) =~= rs);
        assert(by_address(rs).to_multiset() =~= rs.to_multiset());
    } else {
        assert(rs =~= Seq::empty());
    }
}

proof fn lemma_chosen_len(rs: Seq<FoundV>, declared: Seq<Seq<char>>)
    ensures
        chosen(rs, declared, true).len() + chosen(rs, declared, false).len() == rs.len(),
    decreases rs.len(),
{
    if rs.len() > 0 {
        lemma_chosen_len(rs.drop_last(), declared);
    }
}

/// Every resource is declared or not, and counted once.
pub proof fn law_classification_partitions(rs: Seq<FoundV>, declared: Seq<Seq<char>>)
    ensures
        by_address(chosen(rs, declared, true)).len() + by_address(chosen(rs, declared, false)).len()
            == rs.len(),
{
    lemma_chosen_len(rs, declared);
    law_ordering_keeps_all(chosen(rs, declared, true));
    law_ordering_keeps_all(chosen(rs, declared, false));
}

/// Where every address is declared, nothing is undeclared.
pub proof fn law_all_declared(rs: Seq<FoundV>, declared: Seq<Seq<char>>)
    requires
        forall|i: int| #![trigger rs[i]] 0 <= i < rs.len() ==> declared.contains(rs[i].address),
    ensures
        by_address(chosen(rs, declared, false)) == Seq::<FoundV>::empty(),
    decreases rs.len(),
{
    if rs.len() > 0 {
        let t = rs.drop_last();
        assert forall|i: int| #![trigger t[i]] 0 <= i < t.len() implies declared.contains(t[i].address) by {
            assert(t[i] == rs[i]);
        }
        law_all_declared(t, declared);
        assert(declared.contains(rs[rs.len() - 1].address));
        lemma_empty_order(chosen(t, declared, false));
    }
}

proof fn lemma_empty_order(rs: Seq<FoundV>)
    requires
        by_address(rs) == Seq::<FoundV>::empty(),
    ensures
        rs.len() == 0,
{
    law_ordering_keeps_all(rs);
}

/// A configuration that takes resources over has exactly their addresses.
pub proof fn law_adoption_keys_are_addresses(rs: Seq<FoundV>, k: Seq<char>)
    ensures
        lookup(collect(adoption_entries(rs)), k) is Some <==> exists|i: int|
            0 <= i < rs.len() && (#[trigger] rs[i]).address == k,
    decreases rs.len(),
{
    let es = adoption_entries(rs);
    if rs.len() > 0 {
        let t = rs.drop_last();
        law_adoption_keys_are_addresses(t, k);
        assert(es.drop_last() =~= adoption_entries(t));
        crate::ordmap::lemma_collect_sorted(es.drop_last());
        crate::ordmap::lemma_put_lookup(collect(es.drop_last()), es.last().0, es.last().1, k);
        if exists|i: int| 0 <= i < t.len() && (#[trigger] t[i]).address == k {
            let i = choose|i: int| 0 <= i < t.len() && (#[trigger] t[i]).address == k;
            assert(rs[i].address == k);
        }
        if rs.last().address == k {
            assert(rs[rs.len() - 1].address == k);
        }
        if exists|i: int| 0 <= i < rs.len() && (#[trigger] rs[i]).address == k {
            let i = choose|i: int| 0 <= i < rs.len() && (#[trigger] rs[i]).address == k;
            if i < t.len() {
                assert(t[i].address == k);
            }
        }
    } else {
        assert(es =~= Seq::empty());
    }
}

/// A found resource is managed exactly where its address is declared, and the
/// managed ones and the others keep the order in which they were found.
pub proof fn law_declared_decides(rs: Seq<FoundV>, declared: Seq<Seq<char>>)
    ensures
        chosen(rs, declared, true) == rs.filter(|r: FoundV| declared.contains(r.address)),
        chosen(rs, declared, false) == rs.filter(|r: FoundV| !declared.contains(r.address)),
    decreases rs.len(),
{
    reveal(Seq::filter);
    if rs.len() > 0 {
        law_declared_decides(rs.drop_last(), declared);
    }
}

proof fn lemma_placed_filter(rs: Seq<FoundV>, r: FoundV, a: Seq<char>)
    requires
        ascending(rs),
    ensures
        placed(rs, r).filter(|x: FoundV| x.address == a) == rs.push(r).filter(
            |x: FoundV| x.address == a,
        ),
    decreases rs.len(),
{
    let f = |x: FoundV| x.address == a;
    reveal(Seq::filter);
    assert(rs.push(r).drop_last() =~= rs);
    if rs.len() == 0 {
        assert(seq![r] =~= rs.push(r));
    } else if lex_lt(r.address, rs.last().address) {
        let front = rs.drop_last();
        assert forall|i: int, j: int|
            #![trigger front[i], front[j]]
            0 <= i < j < front.len() implies !lex_lt(front[j].address, front[i].address) by {
            assert(front[i] == rs[i] && front[j] == rs[j]);
        }
        lemma_placed_filter(front, r, a);
        let p = placed(front, r);
        assert(p.push(rs.last()).drop_last() =~= p);
        assert(front.push(r).drop_last() =~= front);
        crate::text::lemma_lex_irreflexive(r.address);
        assert(r.address != rs.last().address);
        let l = rs.last();
        let base = front.filter(f);
        assert(rs.filter(f) == if f(l) {
            base.push(l)
        } else {
            base
        });
        assert(front.push(r).filter(f) == if f(r) {
            base.push(r)
        } else {
            base
        });
        assert(p.push(l).filter(f) == if f(l) {
            p.filter(f).push(l)
        } else {
            p.filter(f)
        });
    }
}

/// Resources of one address keep the order in which they were found.
pub proof fn law_ordering_is_stable(rs: Seq<FoundV>, a: Seq<char>)
    ensures
        by_address(rs).filter(|x: FoundV| x.address == a) == rs.filter(
            |x: FoundV| x.address == a,
        ),
    decreases rs.len(),
{
    reveal(Seq::filter);
    if rs.len() > 0 {
        let front = rs.drop_last();
        law_ordering_is_stable(front, a);
        law_ordering_keeps_all(front);
        let f = |x: FoundV| x.address == a;
        let b = by_address(front);
        lemma_placed_filter(b, rs.last(), a);
        assert(b.push(rs.last()).drop_last() =~= b);
    }
}

/// What is adopted under an address is the live value that was found there
/// last.
pub proof fn law_adoption_takes_the_last(rs: Seq<FoundV>, i: int)
    requires
        0 <= i < rs.len(),
        forall|j: int| i < j < rs.len() ==> (#[trigger] rs[j]).address != rs[i].address,
    ensures
        lookup(collect(adoption_entries(rs)), rs[i].address) == Some(rs[i].current),
{
    let ps = adoption_entries(rs);
    crate::ordmap::law_last_pair_stays(ps, rs[i].address);
    assert(ps[i] == (rs[i].address, rs[i].current));
    assert forall|j: int| i < j < ps.len() implies (#[trigger] ps[j]).0 != rs[i].address by {
        assert(rs[j].address != rs[i].address);
    }
}

} // verus!
