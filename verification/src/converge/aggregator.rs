//! Values by key, kept in the order of the keys.
use vstd::prelude::*;
use crate::converge::outcome::{models, worst_among, worst_of, OutcomeLattice};
use crate::keyed::{Key, KeyedMap};
use crate::ordmap::{
    collect, lemma_canonical, lemma_collect_sorted, lemma_put_lookup, lemma_put_sorted, lookup, put,
    sorted,
};

verus! {

/// Values by key.
#[derive(Clone, Debug, PartialEq, Eq)]
pub struct Aggregator<K, V> {
    map: KeyedMap<K, V>,
}

/// The entries whose flag is set, in their order.
pub open spec fn selected<T>(xs: Seq<T>, flags: Seq<bool>) -> Seq<T>
    decreases xs.len(),
{
    if xs.len() == 0 || flags.len() == 0 {
        Seq::empty()
    } else {
        let t = selected(xs.drop_last(), flags.drop_last());
        if flags.last() {
            t.push(xs.last())
        } else {
            t
        }
    }
}

/// The ranks of pairs.
pub open spec fn ranked<K: Key, V>(pairs: Seq<(K, V)>) -> Seq<(K::O, V)> {
    Seq::new(pairs.len(), |i: int| (pairs[i].0.rank(), pairs[i].1))
}

impl<K: Key, V> Aggregator<K, V> {
    /// The entries.
    pub closed spec fn list(&self) -> Seq<(K, V)> {
        self.map.entries@
    }

    /// The entries, by the ranks of their keys.
    pub open spec fn entries(&self) -> Seq<(K::O, V)> {
        ranked(self.list())
    }

    /// Keys are in order, each once.
    pub open spec fn wf(&self) -> bool {
        sorted(self.entries())
    }

    /// No entries.
    pub fn new() -> (r: Self)
        ensures
            r.wf(),
            r.entries() == Seq::<(K::O, V)>::empty(),
    {
        let r = Aggregator { map: KeyedMap::new() };
        proof {
            assert(r.entries() =~= Seq::<(K::O, V)>::empty());
        }
        r
    }

    pub fn len(&self) -> (r: usize)
        ensures
            r == self.entries().len(),
    {
        self.map.len()
    }

    pub fn is_empty(&self) -> (r: bool)
        ensures
            r == (self.entries().len() == 0),
    {
        self.map.is_empty()
    }

    /// Set the value of a key; one that was there is replaced.
    pub fn set(&mut self, key: K, value: V)
        ensures
            final(self).entries() == put(old(self).entries(), key.rank(), value),
            old(self).wf() ==> final(self).wf(),
    {
        proof {
            assert(self.entries() =~= self.map.pairs());
            if self.wf() {
                lemma_put_sorted(self.entries(), key.rank(), value);
            }
        }
        self.map.insert(key, value);
        proof {
            assert(self.entries() =~= self.map.pairs());
        }
    }

    /// The value of a key.
    pub fn get(&self, key: &K) -> (r: Option<&V>)
        ensures
            match r {
                Some(v) => lookup(self.entries(), key.rank()) == Some(*v),
                None => lookup(self.entries(), key.rank()) is None,
            },
    {
        proof {
            assert(self.entries() =~= self.map.pairs());
        }
        self.map.get(key)
    }

    /// The entries, in the order of their keys.
    pub fn iter(&self) -> (r: &Vec<(K, V)>)
        ensures
            r@ == self.list(),
    {
        &self.map.entries
    }

    /// Keep the entries that a predicate holds of.
    pub fn retain<F: Fn(&K, &V) -> bool>(&mut self, f: F)
        requires
            forall|k: &K, v: &V| #[trigger] f.requires((k, v)),
        ensures
            exists|flags: Seq<bool>|
                flags.len() == old(self).list().len() && (forall|i: int|
                    #![trigger flags[i]]
                    0 <= i < flags.len() ==> f.ensures(
                        (&old(self).list()[i].0, &old(self).list()[i].1),
                        flags[i],
                    )) && final(self).list() == #[trigger] selected(old(self).list(), flags),
            old(self).wf() ==> final(self).wf(),
    {
        let mut rest: Vec<(K, V)> = Vec::new();
        std::mem::swap(&mut rest, &mut self.map.entries);
        let ghost all = rest@;
        let ghost mut flags: Seq<bool> = Seq::empty();
        let mut out: Vec<(K, V)> = Vec::new();
        let mut todo: Vec<(K, V)> = Vec::new();
        while rest.len() > 0
            invariant
                rest@.len() + todo@.len() == all.len(),
                rest@ == all.take(rest@.len() as int),
                forall|j: int| 0 <= j < todo@.len() ==> todo@[j] == all[all.len() - 1 - j],
            decreases rest.len(),
        {
            match rest.pop() {
                Some(e) => todo.push(e),
                None => {},
            }
        }
        proof {
            assert(all.take(0) =~= Seq::empty());
        }
        while todo.len() > 0
            invariant
                forall|k: &K, v: &V| #[trigger] f.requires((k, v)),
                todo@.len() <= all.len(),
                forall|j: int| 0 <= j < todo@.len() ==> todo@[j] == all[all.len() - 1 - j],
                flags.len() == all.len() - todo@.len(),
                forall|i: int|
                    #![trigger flags[i]]
                    0 <= i < flags.len() ==> f.ensures((&all[i].0, &all[i].1), flags[i]),
                out@ == selected(all.take(flags.len() as int), flags),
            decreases todo.len(),
        {
            let ghost n = flags.len() as int;
            match todo.pop() {
                Some(e) => {
                    proof {
                        assert(e == all[n]);
                    }
                    let keep = f(&e.0, &e.1);
                    proof {
                        let before = flags;
                        flags = flags.push(keep);
                        assert(flags.drop_last() =~= before);
                        assert(all.take(n + 1).drop_last() =~= all.take(n));
                        assert(all.take(n + 1).last() == e);
                        assert forall|i: int| #![trigger flags[i]] 0 <= i < flags.len() implies f.ensures(
                            (&all[i].0, &all[i].1),
                            flags[i],
                        ) by {
                            if i < n {
                                assert(flags[i] == before[i]);
                            }
                        }
                    }
                    if keep {
                        out.push(e);
                    }
                },
                None => {},
            }
        }
        proof {
            assert(all.take(all.len() as int) =~= all);
            if old(self).wf() {
                lemma_selected_sorted::<K, V>(all, flags);
            }
        }
        self.map.entries = out;
    }

    /// The pairs, put in one after the other.
    pub fn from_iter(pairs: Vec<(K, V)>) -> (r: Self)
        ensures
            r.entries() == collect(ranked(pairs@)),
            r.wf(),
    {
        let mut agg: Aggregator<K, V> = Aggregator::new();
        let mut rest = pairs;
        let mut todo: Vec<(K, V)> = Vec::new();
        let ghost all = pairs@;
        while rest.len() > 0
            invariant
                rest@.len() + todo@.len() == all.len(),
                rest@ == all.take(rest@.len() as int),
                forall|j: int| 0 <= j < todo@.len() ==> todo@[j] == all[all.len() - 1 - j],
            decreases rest.len(),
        {
            match rest.pop() {
                Some(e) => todo.push(e),
                None => {},
            }
        }
        let ghost rs = ranked(all);
        proof {
            assert(rs.take(0) =~= Seq::empty());
        }
        while todo.len() > 0
            invariant
                todo@.len() <= all.len(),
                rs == ranked(all),
                forall|j: int| 0 <= j < todo@.len() ==> todo@[j] == all[all.len() - 1 - j],
                agg.entries() == collect(rs.take(all.len() - todo@.len())),
            decreases todo.len(),
        {
            let ghost n = all.len() - todo@.len();
            match todo.pop() {
                Some(e) => {
                    proof {
                        assert(e == all[n]);
                        assert(rs.take(n + 1).drop_last() =~= rs.take(n));
                        assert(rs.take(n + 1).last() == (e.0.rank(), e.1));
                    }
                    agg.set(e.0, e.1);
                },
                None => {},
            }
        }
        proof {
            assert(rs.take(rs.len() as int) =~= rs);
            lemma_collect_sorted(rs);
        }
        agg
    }
}

/// Leaving entries out keeps the order.
proof fn lemma_selected_sorted<K: Key, V>(xs: Seq<(K, V)>, flags: Seq<bool>)
    requires
        sorted(ranked(xs)),
        flags.len() == xs.len(),
    ensures
        sorted(ranked(selected(xs, flags))),
        forall|j: int|
            #![trigger selected(xs, flags)[j]]
            0 <= j < selected(xs, flags).len() ==> xs.contains(selected(xs, flags)[j]),
    decreases xs.len(),
{
    let s = selected(xs, flags);
    if xs.len() > 0 {
        let t = xs.drop_last();
        let r = ranked(xs);
        assert forall|i: int, j: int|
            #![trigger ranked(t)[i], ranked(t)[j]]
            0 <= i < j < ranked(t).len() implies crate::ordmap::Linear::precedes(
            ranked(t)[i].0,
            ranked(t)[j].0,
        ) by {
            assert(ranked(t)[i] == r[i] && ranked(t)[j] == r[j]);
        }
        lemma_selected_sorted::<K, V>(t, flags.drop_last());
        let q = selected(t, flags.drop_last());
        assert forall|j: int| #![trigger s[j]] 0 <= j < s.len() implies xs.contains(s[j]) by {
            if j < q.len() {
                assert(s[j] == q[j]);
                let i = choose|i: int| 0 <= i < t.len() && t[i] == q[j];
                assert(xs[i] == s[j]);
            } else {
                assert(s[j] == xs[xs.len() - 1]);
            }
        }
        let rs = ranked(s);
        assert forall|i: int, j: int|
            #![trigger rs[i], rs[j]]
            0 <= i < j < rs.len() implies crate::ordmap::Linear::precedes(rs[i].0, rs[j].0) by {
            if j < q.len() {
                assert(rs[i] == ranked(q)[i] && rs[j] == ranked(q)[j]);
            } else {
                assert(s[i] == q[i]);
                let k = choose|k: int| 0 <= k < t.len() && t[k] == q[i];
                assert(r[k].0 == rs[i].0);
                assert(r[xs.len() - 1].0 == rs[j].0);
            }
        }
    }
}

impl<K: Key, V: OutcomeLattice> Aggregator<K, V> {
    /// What the entries say, in the order of their keys.
    pub open spec fn outcomes(&self) -> Seq<V::M> {
        Seq::new(self.list().len(), |i: int| self.list()[i].1.model())
    }

    /// The worst value: the first in the order of the keys where several are
    /// as bad, and the best there is where there are no entries.
    pub fn overall(&self) -> (r: V)
        ensures
            r.model() == worst_among::<V>(self.outcomes()),
    {
        let mut vs: Vec<V> = Vec::new();
        let mut i: usize = 0;
        while i < self.map.entries.len()
            invariant
                i <= self.map.entries@.len(),
                vs@.len() == i,
                forall|j: int| 0 <= j < i ==> (#[trigger] vs@[j]).model() == self.map.entries@[j].1.model(),
            decreases self.map.entries.len() - i,
        {
            vs.push(self.map.entries[i].1.again());
            i += 1;
        }
        proof {
            assert(models(vs@) =~= self.outcomes());
        }
        worst_of(&vs)
    }
}

impl<K: Key, V> Default for Aggregator<K, V> {
    fn default() -> (r: Self)
        ensures
            r.wf(),
            r.entries() == Seq::<(K::O, V)>::empty(),
    {
        Aggregator::new()
    }
}

/// The order in which two keys are set makes no difference.
pub proof fn law_order_of_setting<K: Key, V>(s: Seq<(K::O, V)>, a: K::O, x: V, b: K::O, y: V)
    requires
        sorted(s),
        a != b,
    ensures
        put(put(s, a, x), b, y) == put(put(s, b, y), a, x),
{
    let p = put(s, a, x);
    let q = put(s, b, y);
    lemma_put_sorted(s, a, x);
    lemma_put_sorted(s, b, y);
    lemma_put_sorted(p, b, y);
    lemma_put_sorted(q, a, x);
    assert forall|k: K::O| #[trigger] lookup(put(p, b, y), k) == lookup(put(q, a, x), k) by {
        lemma_put_lookup(p, b, y, k);
        lemma_put_lookup(s, a, x, k);
        lemma_put_lookup(q, a, x, k);
        lemma_put_lookup(s, b, y, k);
    }
    lemma_canonical(put(p, b, y), put(q, a, x));
}

/// What was set is what is read; the other keys are left alone.
pub proof fn law_set_then_get<K: Key, V>(s: Seq<(K::O, V)>, k: K::O, v: V, other: K::O)
    requires
        sorted(s),
    ensures
        lookup(put(s, k, v), k) == Some(v),
        other != k ==> lookup(put(s, k, v), other) == lookup(s, other),
{
    lemma_put_lookup(s, k, v, k);
    lemma_put_lookup(s, k, v, other);
}

/// What is selected is what is flagged, in order.
pub proof fn law_flags_select<T>(a: Seq<T>, fa: Seq<bool>, b: Seq<T>, fb: Seq<bool>, x: T)
    requires
        a.len() == fa.len(),
        b.len() == fb.len(),
    ensures
        selected(a + b, fa + fb) == selected(a, fa) + selected(b, fb),
        selected(seq![x], seq![true]) == seq![x],
        selected(seq![x], seq![false]) == Seq::<T>::empty(),
    decreases b.len(),
{
    assert(seq![x].drop_last() =~= Seq::<T>::empty());
    assert(seq![true].drop_last() =~= Seq::<bool>::empty());
    assert(seq![false].drop_last() =~= Seq::<bool>::empty());
    assert(selected(Seq::<T>::empty(), Seq::<bool>::empty()) =~= Seq::<T>::empty());
    assert(selected(seq![x], seq![true]) =~= seq![x]);
    if b.len() == 0 {
        assert(a + b =~= a);
        assert(fa + fb =~= fa);
        assert(selected(a, fa) + selected(b, fb) =~= selected(a, fa));
    } else {
        law_flags_select(a, fa, b.drop_last(), fb.drop_last(), x);
        assert((a + b).drop_last() =~= a + b.drop_last());
        assert((fa + fb).drop_last() =~= fa + fb.drop_last());
        assert(selected(a + b, fa + fb) =~= selected(a, fa) + selected(b, fb));
    }
}

} // verus!
